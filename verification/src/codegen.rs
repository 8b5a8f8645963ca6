//! Names the code generators derive from the names authors write: a trait's
//! feature, a type's field prefix, a feature's stub.

pub mod ftl;
pub mod messages;
pub mod plan;
pub mod stubs;
pub mod types;

use vstd::prelude::*;

use crate::text::same_text;

verus! {

/// Whether `c` has the Unicode `Uppercase` property.
pub uninterp spec fn upper_case(c: char) -> bool;

/// `c` in upper case, as Unicode maps it: one character or several.
pub uninterp spec fn uppercased(c: char) -> Seq<char>;

/// Calls `char::is_uppercase`, which std documents as whether the character
/// has the Unicode `Uppercase` property; the property itself is named, not
/// spelled out, but among ASCII characters it holds of `A` to `Z` alone, as
/// std's examples show.
#[verifier::external_body]
fn is_upper(c: char) -> (r: bool)
    ensures
        r == upper_case(c),
        'A' <= c <= 'Z' ==> r,
        (c as u32) < 128 && !('A' <= c <= 'Z') ==> !r,
{
    c.is_uppercase()
}

/// Calls `char::to_uppercase` and collects what it yields, which std
/// documents as the Unicode upper-case mapping of the character; the mapping
/// itself is named, not spelled out, but an ASCII character maps to one
/// character: `a` to `z` to `A` to `Z`, any other to itself.
#[verifier::external_body]
fn upper_text(c: char) -> (r: String)
    ensures
        r@ == uppercased(c),
        'a' <= c <= 'z' ==> r@ == seq![((c as u32) - 32) as char],
        (c as u32) < 128 && !('a' <= c <= 'z') ==> r@ == seq![c],
{
    c.to_uppercase().collect::<String>()
}

/// `c` with ASCII `A`-`Z` mapped to `a`-`z` and everything else unchanged,
/// as `char::to_ascii_lowercase` is documented to do.
pub open spec fn ascii_lower(c: char) -> char {
    if 'A' <= c && c <= 'Z' {
        ((c as u32) + 32) as char
    } else {
        c
    }
}

/// `s` in snake case: each upper-case character lowered, with an underscore
/// before it unless it comes first.
pub open spec fn snake(s: Seq<char>) -> Seq<char>
    decreases s.len(),
{
    if s.len() == 0 {
        Seq::empty()
    } else {
        let c = s.last();
        let before = snake(s.drop_last());
        if upper_case(c) {
            if s.len() > 1 {
                before + seq!['_', ascii_lower(c)]
            } else {
                before + seq![ascii_lower(c)]
            }
        } else {
            before.push(c)
        }
    }
}

fn lower_piece(c: char) -> (r: &'static str)
    requires
        'A' <= c && c <= 'Z',
    ensures
        r@ == seq![ascii_lower(c)],
{
    let letters = "abcdefghijklmnopqrstuvwxyz";
    proof {
        reveal_strlit("abcdefghijklmnopqrstuvwxyz");
    }
    let at = (c as u32 - 'A' as u32) as usize;
    let r = letters.substring_char(at, at + 1);
    proof {
        assert(r@ =~= seq![letters@[at as int]]);
        assert(letters@[at as int] == ascii_lower(c)) by {
            assert(letters@[at as int] as u32 == ('a' as u32) + at);
        }
    }
    r
}

/// `s` in snake case: `ServiceDetails` is `service_details`.
pub fn to_snake_case(s: &str) -> (r: String)
    ensures
        r@ == snake(s@),
{
    let len = s.unicode_len();
    let mut out = String::new();
    let mut i: usize = 0;
    proof {
        reveal_strlit("_");
    }
    while i < len
        invariant
            len == s@.len(),
            i <= len,
            out@ == snake(s@.take(i as int)),
        decreases len - i,
    {
        let c = s.get_char(i);
        let ghost before = out@;
        if is_upper(c) {
            if i != 0 {
                out.append("_");
                proof {
                    reveal_strlit("_");
                    assert(out@ =~= before.push('_'));
                }
            }
            if 'A' <= c && c <= 'Z' {
                out.append(lower_piece(c));
            } else {
                out.append(s.substring_char(i, i + 1));
            }
        } else {
            out.append(s.substring_char(i, i + 1));
        }
        proof {
            reveal_strlit("_");
            let taken = s@.take(i + 1);
            assert(taken.drop_last() =~= s@.take(i as int));
            assert(taken.last() == c);
            assert(s@.subrange(i as int, i + 1) =~= seq![c]);
            if upper_case(c) && i != 0 {
                assert(out@ =~= before + seq!['_', ascii_lower(c)]);
            }
            if upper_case(c) && i == 0 {
                assert(out@ =~= before + seq![ascii_lower(c)]);
            }
            if !upper_case(c) {
                assert(out@ =~= before.push(c));
            }
        }
        i = i + 1;
    }
    proof {
        assert(s@.take(i as int) =~= s@);
    }
    out
}

/// `s` in Pascal case, and whether the next character starts a word: each
/// underscore-separated word with its first character in upper case, the
/// underscores gone.
pub open spec fn pascal_upto(s: Seq<char>, n: int) -> (Seq<char>, bool)
    decreases n,
{
    if n <= 0 {
        (Seq::empty(), true)
    } else {
        let (before, starts) = pascal_upto(s, n - 1);
        let c = s[n - 1];
        if c == '_' {
            (before, true)
        } else if starts {
            (before + uppercased(c), false)
        } else {
            (before.push(c), false)
        }
    }
}

pub open spec fn pascal(s: Seq<char>) -> Seq<char> {
    pascal_upto(s, s.len() as int).0
}

/// `service_details` in Pascal case: `ServiceDetails`.
pub fn pascal_case(name: &str) -> (r: String)
    ensures
        r@ == pascal(name@),
{
    let len = name.unicode_len();
    let mut out = String::new();
    let mut starts = true;
    let mut i: usize = 0;
    while i < len
        invariant
            len == name@.len(),
            i <= len,
            (out@, starts) == pascal_upto(name@, i as int),
        decreases len - i,
    {
        let c = name.get_char(i);
        let ghost before = out@;
        if c == '_' {
            starts = true;
        } else if starts {
            let upper = upper_text(c);
            out.append(upper.as_str());
            starts = false;
        } else {
            out.append(name.substring_char(i, i + 1));
            proof {
                assert(name@.subrange(i as int, i + 1) =~= seq![c]);
                assert(out@ =~= before.push(c));
            }
            starts = false;
        }
        i = i + 1;
    }
    out
}

/// A type's field prefix: its name in snake case.
pub fn snake_case(name: &str) -> (r: String)
    ensures
        r@ == snake(name@),
{
    to_snake_case(name)
}

/// Whether `s` starts with `p`.
pub open spec fn starts_with(s: Seq<char>, p: Seq<char>) -> bool {
    p.len() <= s.len() && s.take(p.len() as int) == p
}

/// Whether `s` ends with `p`.
pub open spec fn ends_with(s: Seq<char>, p: Seq<char>) -> bool {
    p.len() <= s.len() && s.skip(s.len() - p.len()) == p
}

/// The feature a `#[port]` or `#[bindings]` trait belongs to: its name
/// without a leading `Ui` and a trailing `Actions`, `Bindings` or `Port`, in
/// snake case - unless it is one of the names known to belong elsewhere.
pub open spec fn feature_of(name: Seq<char>) -> Seq<char> {
    if name == "UiServiceDetailsPort"@ {
        "services"@
    } else {
        let bare = if starts_with(name, "Ui"@) { name.skip(2) } else { name };
        let core = if ends_with(bare, "Actions"@) {
            bare.take(bare.len() - 7)
        } else if ends_with(bare, "Bindings"@) {
            bare.take(bare.len() - 8)
        } else if ends_with(bare, "Port"@) {
            bare.take(bare.len() - 4)
        } else {
            bare
        };
        snake(core)
    }
}

fn strip_suffix<'a>(s: &'a str, len: usize, suffix: &str) -> (r: Option<&'a str>)
    requires
        len == s@.len(),
    ensures
        match r {
            Some(rest) => ends_with(s@, suffix@) && rest@ == s@.take(s@.len() - suffix@.len()),
            None => !ends_with(s@, suffix@),
        },
{
    let n = suffix.unicode_len();
    if n > len {
        return None;
    }
    let tail = s.substring_char(len - n, len);
    if same_text(tail, suffix) {
        proof {
            assert(s@.skip(s@.len() - suffix@.len()) =~= tail@);
        }
        Some(s.substring_char(0, len - n))
    } else {
        proof {
            assert(s@.skip(s@.len() - suffix@.len()) =~= tail@);
        }
        None
    }
}

/// The feature a `#[port]` or `#[bindings]` trait belongs to:
/// `UiProcessesPort` is `processes`.
pub fn feature_from_trait_name(trait_name: &str) -> (r: String)
    ensures
        r@ == feature_of(trait_name@),
{
    proof {
        reveal_strlit("Ui");
        reveal_strlit("Actions");
        reveal_strlit("Bindings");
        reveal_strlit("Port");
    }
    if same_text(trait_name, "UiServiceDetailsPort") {
        return String::from_str("services");
    }
    let len = trait_name.unicode_len();
    let bare = if len >= 2 && same_text(trait_name.substring_char(0, 2), "Ui") {
        proof {
            assert(trait_name@.take(2) =~= trait_name@.subrange(0, 2));
        }
        trait_name.substring_char(2, len)
    } else {
        proof {
            if len >= 2 {
                assert(trait_name@.take(2) =~= trait_name@.subrange(0, 2));
            }
        }
        trait_name
    };
    proof {
        if starts_with(trait_name@, "Ui"@) {
            assert(bare@ =~= trait_name@.skip(2));
        }
    }
    let blen = bare.unicode_len();
    let core = match strip_suffix(bare, blen, "Actions") {
        Some(rest) => rest,
        None => match strip_suffix(bare, blen, "Bindings") {
            Some(rest) => rest,
            None => match strip_suffix(bare, blen, "Port") {
                Some(rest) => rest,
                None => bare,
            },
        },
    };
    to_snake_case(core)
}

/// The type names a generated stub leaves as they are.
pub open spec fn std_type(ident: Seq<char>) -> bool {
    ||| ident == "bool"@
    ||| ident == "u8"@
    ||| ident == "u16"@
    ||| ident == "u32"@
    ||| ident == "u64"@
    ||| ident == "u128"@
    ||| ident == "usize"@
    ||| ident == "i8"@
    ||| ident == "i16"@
    ||| ident == "i32"@
    ||| ident == "i64"@
    ||| ident == "i128"@
    ||| ident == "isize"@
    ||| ident == "f32"@
    ||| ident == "f64"@
    ||| ident == "String"@
    ||| ident == "str"@
    ||| ident == "Vec"@
    ||| ident == "Option"@
    ||| ident == "Box"@
    ||| ident == "Result"@
}

/// Whether `ident` names a type of the language or of std, which a
/// generated stub does not qualify with the contracts crate's path.
pub fn is_std_type(ident: &str) -> (r: bool)
    ensures
        r == std_type(ident@),
{
    same_text(ident, "bool") || same_text(ident, "u8") || same_text(ident, "u16") || same_text(ident, "u32")
        || same_text(ident, "u64") || same_text(ident, "u128") || same_text(ident, "usize")
        || same_text(ident, "i8") || same_text(ident, "i16") || same_text(ident, "i32")
        || same_text(ident, "i64") || same_text(ident, "i128") || same_text(ident, "isize")
        || same_text(ident, "f32") || same_text(ident, "f64") || same_text(ident, "String")
        || same_text(ident, "str") || same_text(ident, "Vec") || same_text(ident, "Option")
        || same_text(ident, "Box") || same_text(ident, "Result")
}

/// `id` with each `-` and `.` made an underscore: the name of a message's
/// accessor method.
pub open spec fn accessor_of(id: Seq<char>) -> Seq<char> {
    id.map_values(|c: char| if c == '-' || c == '.' { '_' } else { c })
}

/// The accessor method for the message `id`: `menu-quit` is `menu_quit`.
pub fn accessor_name(id: &str) -> (r: String)
    ensures
        r@ == accessor_of(id@),
{
    proof {
        reveal_strlit("_");
    }
    let len = id.unicode_len();
    let mut out = String::new();
    let mut i: usize = 0;
    while i < len
        invariant
            len == id@.len(),
            i <= len,
            out@ == accessor_of(id@.take(i as int)),
        decreases len - i,
    {
        let c = id.get_char(i);
        let ghost before = out@;
        if c == '-' || c == '.' {
            out.append("_");
        } else {
            out.append(id.substring_char(i, i + 1));
        }
        proof {
            reveal_strlit("_");
            assert(id@.subrange(i as int, i + 1) =~= seq![c]);
            assert(accessor_of(id@.take(i + 1)) =~= accessor_of(id@.take(i as int)).push(
                if c == '-' || c == '.' { '_' } else { c },
            ));
            assert(out@ =~= before.push(if c == '-' || c == '.' { '_' } else { c }));
        }
        i = i + 1;
    }
    proof {
        assert(id@.take(i as int) =~= id@);
    }
    out
}

/// `s` in upper case, character by character, as Unicode maps each.
pub open spec fn upper_all(s: Seq<char>) -> Seq<char>
    decreases s.len(),
{
    if s.len() == 0 {
        Seq::empty()
    } else {
        upper_all(s.drop_last()) + uppercased(s.last())
    }
}

/// The constant a capability's key is kept in: the key in upper case, each
/// `.` and `-` made an underscore.
pub open spec fn capability_const_of(key: Seq<char>) -> Seq<char> {
    upper_all(key).map_values(|c: char| if c == '.' || c == '-' { '_' } else { c })
}

/// The constant a capability's key is kept in: `ui.clipboard` is
/// `UI_CLIPBOARD`.
pub fn capability_const(key: &str) -> (r: String)
    ensures
        r@ == capability_const_of(key@),
{
    let len = key.unicode_len();
    let mut upper = String::new();
    let mut i: usize = 0;
    while i < len
        invariant
            len == key@.len(),
            i <= len,
            upper@ == upper_all(key@.take(i as int)),
        decreases len - i,
    {
        let c = key.get_char(i);
        let piece = upper_text(c);
        upper.append(piece.as_str());
        proof {
            let taken = key@.take(i + 1);
            assert(taken.drop_last() =~= key@.take(i as int));
            assert(taken.last() == c);
        }
        i = i + 1;
    }
    proof {
        assert(key@.take(i as int) =~= key@);
    }
    let ulen = upper.as_str().unicode_len();
    let mut out = String::new();
    let mut j: usize = 0;
    let ghost all = upper@;
    proof {
        reveal_strlit("_");
    }
    while j < ulen
        invariant
            ulen == all.len(),
            all == upper@,
            j <= ulen,
            out@ == all.take(j as int).map_values(|c: char| if c == '.' || c == '-' { '_' } else { c }),
        decreases ulen - j,
    {
        let c = upper.as_str().get_char(j);
        let ghost before = out@;
        if c == '.' || c == '-' {
            out.append("_");
        } else {
            out.append(upper.as_str().substring_char(j, j + 1));
        }
        proof {
            reveal_strlit("_");
            assert(all.subrange(j as int, j + 1) =~= seq![c]);
            assert(out@ =~= before.push(if c == '.' || c == '-' { '_' } else { c }));
            assert(out@ =~= all.take(j + 1).map_values(|c: char| if c == '.' || c == '-' { '_' } else { c }));
        }
        j = j + 1;
    }
    proof {
        assert(all.take(j as int) =~= all);
    }
    out
}

} // verus!
