use guinea::uri::AppUri;

#[test]
fn segments_are_the_non_empty_parts_of_the_path() {
    let uri = AppUri::parse("/ubuntu/processes").expect("a path");
    assert_eq!(uri.segments(), ["ubuntu", "processes"]);
    assert_eq!(uri.segment(0), Some("ubuntu"));
    assert_eq!(uri.segment(1), Some("processes"));
    assert_eq!(uri.segment(2), None);
}

#[test]
fn a_query_is_not_a_segment() {
    let uri = AppUri::parse("//a///b/?tab=cpu").expect("a path");
    assert_eq!(uri.segments(), ["a", "b"]);
    assert_eq!(uri.path_and_query().query(), Some("tab=cpu"));
}

#[test]
fn the_root_has_no_segments() {
    let uri = AppUri::parse("/").expect("the root");
    assert!(uri.segments().is_empty());
    assert_eq!(uri.clone(), uri);
}

#[test]
fn what_http_refuses_is_an_error() {
    assert!(AppUri::parse("/a b").is_err());
}

#[test]
fn a_fragment_is_not_a_segment_either() {
    let uri = AppUri::parse("/docs/intro#install").expect("a path");
    assert_eq!(uri.segments(), ["docs", "intro"]);
    let only_query = AppUri::parse("?tab=cpu").expect("a query alone");
    assert!(only_query.segments().is_empty());
}
