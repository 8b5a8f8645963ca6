//! Type names as devtools show them: a type's module and the type itself.

use vstd::prelude::*;

verus! {

pub open spec fn is_separator(s: Seq<char>, k: int) -> bool {
    0 <= k && k + 1 < s.len() && s[k] == ':' && s[k + 1] == ':'
}

/// Where the last `::` that starts before `n` starts, or `-1`.
pub open spec fn last_separator(s: Seq<char>, n: int) -> int
    decreases n,
{
    if n <= 0 {
        -1
    } else if is_separator(s, n - 1) {
        n - 1
    } else {
        last_separator(s, n - 1)
    }
}

/// The last two `::`-separated parts of `full`, or all of it when it has
/// fewer.
pub open spec fn short_name(full: Seq<char>) -> Seq<char> {
    let last = last_separator(full, full.len() as int);
    let before = last_separator(full, last);
    if last < 0 || before < 0 {
        full
    } else {
        full.subrange(before + 2, full.len() as int)
    }
}

proof fn lemma_last_separator(s: Seq<char>, n: int)
    ensures
        -1 <= last_separator(s, n) < if n <= 0 { 0 } else { n },
        last_separator(s, n) >= 0 ==> is_separator(s, last_separator(s, n)),
    decreases n,
{
    if n > 0 {
        lemma_last_separator(s, n - 1);
    }
}

fn find_last_separator(s: &str, len: usize, n: usize) -> (r: Option<usize>)
    requires
        len == s@.len(),
        n <= len,
    ensures
        match r {
            Some(k) => k == last_separator(s@, n as int),
            None => last_separator(s@, n as int) < 0,
        },
{
    let mut m = n;
    while m > 0
        invariant
            len == s@.len(),
            m <= n <= len,
            last_separator(s@, n as int) == last_separator(s@, m as int),
        decreases m,
    {
        let k = m - 1;
        if k + 1 < len && s.get_char(k) == ':' && s.get_char(k + 1) == ':' {
            return Some(k);
        }
        m = k;
    }
    None
}

/// `full` cut down to its module and itself: `a::b::C` is `b::C`.
pub fn shorten(full: &str) -> (r: String)
    ensures
        r@ == short_name(full@),
{
    let len = full.unicode_len();
    proof {
        lemma_last_separator(full@, len as int);
    }
    match find_last_separator(full, len, len) {
        None => String::from_str(full),
        Some(last) => {
            proof {
                lemma_last_separator(full@, last as int);
            }
            match find_last_separator(full, len, last) {
                None => String::from_str(full),
                Some(before) => String::from_str(full.substring_char(before + 2, len)),
            }
        },
    }
}

} // verus!
