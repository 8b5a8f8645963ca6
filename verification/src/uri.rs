//! A location inside the application: a path and maybe a query.

use http::uri::{InvalidUri, PathAndQuery};

use vstd::prelude::*;

verus! {

#[verifier::external_type_specification]
#[verifier::external_body]
pub struct ExPathAndQuery(PathAndQuery);

#[verifier::external_type_specification]
#[verifier::external_body]
pub struct ExInvalidUri(InvalidUri);

/// `PathAndQuery`'s `Clone`, which `http` derives; nothing about the copy is
/// stated here.
pub assume_specification[ <PathAndQuery as Clone>::clone ](uri: &PathAndQuery) -> PathAndQuery;

/// Whether `http` accepts `s` as a path and query.
pub uninterp spec fn parses(s: Seq<char>) -> bool;

/// Where the path of `s` ends: at its first `?` or `#`, or at its end.
pub open spec fn path_end(s: Seq<char>, from: int) -> int
    decreases s.len() - from,
{
    if from >= s.len() {
        s.len() as int
    } else if s[from] == '?' || s[from] == '#' {
        from
    } else {
        path_end(s, from + 1)
    }
}

/// The path `http` reads out of a text it accepts: everything before the
/// first `?` or `#`, or `/` when that is nothing.
pub open spec fn path_part(s: Seq<char>) -> Seq<char> {
    if path_end(s, 0) <= 0 {
        seq!['/']
    } else {
        s.subrange(0, path_end(s, 0))
    }
}

/// Calls `PathAndQuery`'s `FromStr`, and on success its `path`, copied into
/// a `String`.
///
/// `FromStr` checks that the text is a valid path and query; which texts
/// those are is named here, not spelled out. `path` gives what the scan
/// found before the query (`?`) or the fragment (`#`, which is dropped), or
/// `/` when that is empty: in `http`'s source, `from_shared` cuts the text at
/// the fragment, and `path` cuts it at the query. The parsed value itself is
/// not described.
#[verifier::external_body]
fn parse_path_and_query(s: &str) -> (r: Result<(PathAndQuery, String), InvalidUri>)
    ensures
        r is Ok <==> parses(s@),
        r matches Ok((_, path)) ==> path@ == path_part(s@),
{
    let uri = s.parse::<PathAndQuery>()?;
    let path = uri.path().to_string();
    Ok((uri, path))
}

/// Where in the application to go.
#[derive(Clone, Debug, PartialEq, Eq)]
pub struct AppUri {
    uri: PathAndQuery,
    path: String,
}

/// `path` cut at each `/`: the segments finished before the `n`-th
/// character, and where the one under way started.
pub open spec fn split_upto(path: Seq<char>, n: int) -> (Seq<Seq<char>>, int)
    decreases n,
{
    if n <= 0 {
        (Seq::empty(), 0)
    } else {
        let (done, start) = split_upto(path, n - 1);
        if path[n - 1] == '/' {
            (if n - 1 > start { done.push(path.subrange(start, n - 1)) } else { done }, n)
        } else {
            (done, start)
        }
    }
}

/// The non-empty segments of `path`, in order: `/ubuntu/processes` has
/// `ubuntu` and `processes`.
pub open spec fn segments_of(path: Seq<char>) -> Seq<Seq<char>> {
    let (done, start) = split_upto(path, path.len() as int);
    if path.len() > start {
        done.push(path.subrange(start, path.len() as int))
    } else {
        done
    }
}

proof fn lemma_split_upto(path: Seq<char>, n: int)
    requires
        0 <= n <= path.len(),
    ensures
        0 <= split_upto(path, n).1 <= n,
    decreases n,
{
    if n > 0 {
        lemma_split_upto(path, n - 1);
    }
}

/// `path` with its slashes taken out.
pub open spec fn unslashed(path: Seq<char>) -> Seq<char>
    decreases path.len(),
{
    if path.len() == 0 {
        path
    } else if path.last() == '/' {
        unslashed(path.drop_last())
    } else {
        unslashed(path.drop_last()).push(path.last())
    }
}

/// `pieces`, one after another.
pub open spec fn concat_all(pieces: Seq<Seq<char>>) -> Seq<char>
    decreases pieces.len(),
{
    if pieces.len() == 0 {
        Seq::empty()
    } else {
        concat_all(pieces.drop_last()) + pieces.last()
    }
}

/// Whether `piece` stands in `path` between two slashes, or a slash and an
/// end of the path.
pub open spec fn between_slashes(path: Seq<char>, piece: Seq<char>) -> bool {
    exists|at: int|
        0 <= at && at + piece.len() <= path.len() && #[trigger] path.subrange(at, at + piece.len()) == piece && (at == 0
            || path[at - 1] == '/') && (at + piece.len() == path.len() || path[at + piece.len()] == '/')
}

/// A segment of `path`: non-empty, without a slash, and standing between
/// slashes or the ends of the path.
pub open spec fn is_segment(path: Seq<char>, piece: Seq<char>) -> bool {
    &&& piece.len() > 0
    &&& !piece.contains('/')
    &&& between_slashes(path, piece)
}

proof fn lemma_split_runs(path: Seq<char>, n: int)
    requires
        0 <= n <= path.len(),
    ensures
        split_upto(path, n).1 <= n,
        split_upto(path, n).1 == 0 || path[split_upto(path, n).1 - 1] == '/',
        forall|j: int| split_upto(path, n).1 <= j < n ==> path[j] != '/',
        forall|i: int| 0 <= i < split_upto(path, n).0.len() ==> #[trigger] is_segment(path, split_upto(path, n).0[i]),
        concat_all(split_upto(path, n).0) + path.subrange(split_upto(path, n).1, n) == unslashed(path.take(n)),
    decreases n,
{
    if n == 0 {
        assert(path.subrange(0, 0) =~= Seq::<char>::empty());
        assert(path.take(0) =~= Seq::<char>::empty());
    } else {
        lemma_split_runs(path, n - 1);
        lemma_split_upto(path, n - 1);
        let (done, start) = split_upto(path, n - 1);
        let taken = path.take(n);
        assert(taken.drop_last() =~= path.take(n - 1));
        assert(taken.last() == path[n - 1]);
        if path[n - 1] == '/' {
            assert(path.subrange(n, n) =~= Seq::<char>::empty());
            if n - 1 > start {
                let piece = path.subrange(start, n - 1);
                assert(!piece.contains('/')) by {
                    if piece.contains('/') {
                        let k = choose|k: int| 0 <= k < piece.len() && piece[k] == '/';
                        assert(path[start + k] == '/');
                    }
                }
                assert(path.subrange(start, start + piece.len()) == piece);
                assert(between_slashes(path, piece));
                let grown = done.push(piece);
                assert(grown.drop_last() =~= done);
                assert forall|i: int| 0 <= i < grown.len() implies #[trigger] is_segment(path, grown[i]) by {
                    if i < done.len() {
                        assert(grown[i] == done[i]);
                    }
                }
                assert(concat_all(grown) + path.subrange(n, n) =~= concat_all(done) + path.subrange(start, n - 1));
            } else {
                assert(path.subrange(start, n - 1) =~= Seq::<char>::empty());
                assert(concat_all(done) + path.subrange(n, n) =~= concat_all(done) + path.subrange(start, n - 1));
            }
        } else {
            assert(path.subrange(start, n) =~= path.subrange(start, n - 1).push(path[n - 1]));
            assert(concat_all(done) + path.subrange(start, n) =~= (concat_all(done) + path.subrange(start, n - 1)).push(
                path[n - 1],
            ));
        }
    }
}

/// The segments of a path are exactly its maximal runs of characters other
/// than `/`: each is non-empty, holds no `/` and stands between slashes or
/// the ends of the path, and one after another they give the path with its
/// slashes taken out - every other character, a `.` included, stays inside
/// a segment, in order.
pub proof fn law_segments_are_the_runs_between_slashes(path: Seq<char>)
    ensures
        forall|i: int| 0 <= i < segments_of(path).len() ==> #[trigger] is_segment(path, segments_of(path)[i]),
        concat_all(segments_of(path)) == unslashed(path),
{
    lemma_split_runs(path, path.len() as int);
    lemma_split_upto(path, path.len() as int);
    let (done, start) = split_upto(path, path.len() as int);
    assert(path.take(path.len() as int) =~= path);
    if path.len() > start {
        let piece = path.subrange(start, path.len() as int);
        assert(!piece.contains('/')) by {
            if piece.contains('/') {
                let k = choose|k: int| 0 <= k < piece.len() && piece[k] == '/';
                assert(path[start + k] == '/');
            }
        }
        assert(path.subrange(start, start + piece.len()) == piece);
        assert(between_slashes(path, piece));
        let all = done.push(piece);
        assert(all.drop_last() =~= done);
        assert forall|i: int| 0 <= i < all.len() implies #[trigger] is_segment(path, all[i]) by {
            if i < done.len() {
                assert(all[i] == done[i]);
            }
        }
    } else {
        assert(path.subrange(start, path.len() as int) =~= Seq::<char>::empty());
        assert(concat_all(done) + Seq::<char>::empty() =~= concat_all(done));
    }
}

impl AppUri {
    /// The path this location was parsed with, as `http` gave it.
    pub closed spec fn path_view(&self) -> Seq<char> {
        self.path@
    }

    /// Parses a path and query; an error when `http` does not accept it.
    pub fn parse(s: &str) -> (r: Result<AppUri, InvalidUri>)
        ensures
            r is Ok <==> parses(s@),
            r matches Ok(uri) ==> uri.path_view() == path_part(s@),
    {
        match parse_path_and_query(s) {
            Ok((uri, path)) => Ok(AppUri { uri, path }),
            Err(err) => Err(err),
        }
    }

    /// The path and query this location holds, as `http` parsed it.
    pub closed spec fn parsed(&self) -> PathAndQuery {
        self.uri
    }

    /// The parsed path and query itself: the one this location was made
    /// with.
    pub fn path_and_query(&self) -> (r: &PathAndQuery)
        ensures
            *r == self.parsed(),
    {
        &self.uri
    }

    /// Non-empty path segments, in order - `/ubuntu/processes` has
    /// `ubuntu` and `processes`.
    pub fn segments(&self) -> (r: Vec<&str>)
        ensures
            r@.map_values(|s: &str| s@) == segments_of(self.path_view()),
    {
        let path = self.path.as_str();
        let len = path.unicode_len();
        let mut done: Vec<&str> = Vec::new();
        let mut start: usize = 0;
        let mut i: usize = 0;
        while i < len
            invariant
                path@ == self.path_view(),
                len == path@.len(),
                i <= len,
                (done@.map_values(|s: &str| s@), start as int) == split_upto(path@, i as int),
            decreases len - i,
        {
            proof {
                lemma_split_upto(path@, i as int);
            }
            if path.get_char(i) == '/' {
                let ghost before = done@;
                if i > start {
                    done.push(path.substring_char(start, i));
                    proof {
                        assert(done@.map_values(|s: &str| s@) =~= before.map_values(|s: &str| s@).push(path@.subrange(start as int, i as int)));
                    }
                }
                start = i + 1;
            }
            i = i + 1;
        }
        proof {
            lemma_split_upto(path@, len as int);
        }
        if len > start {
            let ghost before = done@;
            done.push(path.substring_char(start, len));
            proof {
                assert(done@.map_values(|s: &str| s@) =~= before.map_values(|s: &str| s@).push(path@.subrange(start as int, len as int)));
            }
        }
        done
    }

    /// The `n`th non-empty path segment, counting from 0.
    pub fn segment(&self, n: usize) -> (r: Option<&str>)
        ensures
            match r {
                Some(s) => n < segments_of(self.path_view()).len() && s@ == segments_of(self.path_view())[n as int],
                None => n >= segments_of(self.path_view()).len(),
            },
    {
        let all = self.segments();
        if n < all.len() {
            proof {
                assert(all@.map_values(|s: &str| s@)[n as int] == all@[n as int]@);
            }
            Some(all[n])
        } else {
            None
        }
    }
}

} // verus!
