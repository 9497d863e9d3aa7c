use vstd::prelude::*;

use crate::models::Level;
use crate::text::{chars_of, lower_of, lowercase, text_is};

verus! {

/// The canonical gender a lowercased tag stands for, if any.
pub open spec fn gender_named(s: Seq<char>) -> Option<Seq<char>> {
    if s == "m"@ || s == "masculine"@ {
        Some("masculine"@)
    } else if s == "f"@ || s == "feminine"@ {
        Some("feminine"@)
    } else {
        None
    }
}

/// Reads a grammatical gender tag, ignoring case.
pub fn normalize_gender(input: &str) -> (r: Option<String>)
    ensures
        match r {
            Some(g) => gender_named(lower_of(input@)) == Some(g@),
            None => gender_named(lower_of(input@)) is None,
        },
{
    let lower = lowercase(input);
    let l = lower.as_str();
    if text_is(l, "m") || text_is(l, "masculine") {
        Some("masculine".to_owned())
    } else if text_is(l, "f") || text_is(l, "feminine") {
        Some("feminine".to_owned())
    } else {
        None
    }
}

/// The tier a letter and a digit name, in either case.
pub open spec fn tier_of(c: char, d: char) -> Option<Level> {
    if (c == 'a' || c == 'A') && d == '1' {
        Some(Level::A1)
    } else if (c == 'a' || c == 'A') && d == '2' {
        Some(Level::A2)
    } else if (c == 'b' || c == 'B') && d == '1' {
        Some(Level::B1)
    } else if (c == 'b' || c == 'B') && d == '2' {
        Some(Level::B2)
    } else if (c == 'c' || c == 'C') && d == '1' {
        Some(Level::C1)
    } else if (c == 'c' || c == 'C') && d == '2' {
        Some(Level::C2)
    } else {
        None
    }
}

/// The first tier named in `t` at or after position `i`.
pub open spec fn first_tier(t: Seq<char>, i: int) -> Option<Level>
    decreases t.len() - i,
{
    if i < 0 || i + 1 >= t.len() {
        None
    } else if tier_of(t[i], t[i + 1]) is Some {
        tier_of(t[i], t[i + 1])
    } else {
        first_tier(t, i + 1)
    }
}

fn tier_here(c: char, d: char) -> (r: Option<Level>)
    ensures
        r == tier_of(c, d),
{
    if (c == 'a' || c == 'A') && d == '1' {
        Some(Level::A1)
    } else if (c == 'a' || c == 'A') && d == '2' {
        Some(Level::A2)
    } else if (c == 'b' || c == 'B') && d == '1' {
        Some(Level::B1)
    } else if (c == 'b' || c == 'B') && d == '2' {
        Some(Level::B2)
    } else if (c == 'c' || c == 'C') && d == '1' {
        Some(Level::C1)
    } else if (c == 'c' || c == 'C') && d == '2' {
        Some(Level::C2)
    } else {
        None
    }
}

/// The first tier named anywhere in a file path, such as `b1` in `content/b1/x.json`.
pub fn infer_level_from_path(path: &str) -> (r: Option<Level>)
    ensures
        r == first_tier(path@, 0),
{
    let t = chars_of(path);
    let n = t.len();
    let mut i: usize = 0;
    while i < n && i + 1 < n
        invariant
            n == t@.len(),
            t@ == path@,
            first_tier(t@, 0) == first_tier(t@, i as int),
        decreases t@.len() - i,
    {
        let found = tier_here(t[i], t[i + 1]);
        if found.is_some() {
            return found;
        }
        i = i + 1;
    }
    None
}

} // verus!
