use guinea::devtools::{app_panels, contribute, contribute_to_app, finish, panels, Panel, PanelNode, Panels};

fn test_panel() -> Option<Panel> {
    Some(Panel {
        id: "test",
        title: "Test",
        nodes: Vec::new(),
    })
}

#[test]
fn a_panel_is_offered_for_its_root_until_the_guard_goes() {
    let mut registry = Panels::new();
    let guard = contribute(&mut registry, 7, test_panel);
    assert_eq!(panels(&registry, 7).len(), 1);
    assert!(panels(&registry, 8).is_empty());
    assert!(app_panels(&registry).is_empty());

    guard.withdraw(&mut registry);
    assert!(panels(&registry, 7).is_empty());
}

#[test]
fn an_application_panel_belongs_to_no_root() {
    let mut registry = Panels::new();
    let guard = contribute_to_app(&mut registry, test_panel);
    assert_eq!(app_panels(&registry).len(), 1);
    assert!(panels(&registry, 0).is_empty());

    guard.withdraw(&mut registry);
    assert!(app_panels(&registry).is_empty());
}

#[test]
fn a_provider_with_nothing_to_show_is_left_out_and_the_rest_keep_their_order() {
    let mut registry: Panels<Box<dyn Fn() -> Option<Panel>>> = Panels::new();
    let _first = contribute(&mut registry, 1, Box::new(|| Some(Panel { id: "a", title: "A", nodes: Vec::new() })));
    let _empty = contribute(&mut registry, 1, Box::new(|| None));
    let second = contribute(&mut registry, 1, Box::new(|| Some(Panel { id: "b", title: "B", nodes: Vec::new() })));
    let ids: Vec<&str> = panels(&registry, 1).iter().map(|panel| panel.id).collect();
    assert_eq!(ids, ["a", "b"]);

    second.withdraw(&mut registry);
    let ids: Vec<&str> = panels(&registry, 1).iter().map(|panel| panel.id).collect();
    assert_eq!(ids, ["a"]);
}

#[test]
fn a_logged_event_reads_as_its_message_then_its_fields() {
    assert_eq!(
        finish("process killed".to_string(), vec!["pid=42".to_string()]),
        "process killed pid=42"
    );
    assert_eq!(finish(String::new(), vec!["a=1".to_string(), "b=2".to_string()]), "a=1 b=2");
    assert_eq!(finish("plain".to_string(), Vec::new()), "plain");
}

#[test]
fn a_panel_node_clones_whole() {
    let node = PanelNode {
        label: "root".to_string(),
        kind: "window".to_string(),
        properties: vec![("w".to_string(), "10".to_string())],
        children: vec![PanelNode::default()],
    };
    assert_eq!(node.clone(), node);
}

#[test]
fn withdrawing_the_last_offer_restores_the_ones_before() {
    let mut registry: Panels<Box<dyn Fn() -> Option<Panel>>> = Panels::new();
    let _first = contribute(&mut registry, 1, Box::new(|| Some(Panel { id: "a", title: "A", nodes: Vec::new() })));
    let _app = contribute_to_app(&mut registry, Box::new(|| Some(Panel { id: "b", title: "B", nodes: Vec::new() })));
    let before: Vec<&str> = panels(&registry, 1).iter().chain(app_panels(&registry).iter()).map(|p| p.id).collect();
    let late = contribute(&mut registry, 1, Box::new(|| Some(Panel { id: "c", title: "C", nodes: Vec::new() })));
    late.withdraw(&mut registry);
    let after: Vec<&str> = panels(&registry, 1).iter().chain(app_panels(&registry).iter()).map(|p| p.id).collect();
    assert_eq!(before, after);
}
