use vstd::prelude::*;

use crate::json::{pretty_text, tolerant_parse, tolerant_spec, to_pretty};
use crate::merge::{append_notes, merge_spec, merge_with_notes, texts_view};
use crate::text::{chars_of, push_all, string_of, strings_view, trim_chars, trim_of};
use crate::tree::copy_chars;

verus! {

/// The outcome of resolving every conflict region of a document.
#[derive(Debug, Clone, Default)]
pub struct ConflictResolution {
    /// The document with each region replaced by its resolution.
    pub content: String,
    /// Fragments left for a person to inspect, in document order.
    pub rejects: Vec<String>,
    /// The number of regions found.
    pub conflicts: usize,
    /// Whether any region was found.
    pub had_conflicts: bool,
}

/// `pat` occurs in `t` at position `i`.
pub open spec fn occurs_at(t: Seq<char>, i: int, pat: Seq<char>) -> bool {
    0 <= i && i + pat.len() <= t.len() && t.subrange(i, i + pat.len()) == pat
}

/// The first position at or after `i` where `pat` occurs in `t`.
pub open spec fn first_at(t: Seq<char>, i: int, pat: Seq<char>) -> Option<int>
    decreases t.len() - i,
{
    if i < 0 || i >= t.len() || i + pat.len() > t.len() {
        None
    } else if occurs_at(t, i, pat) {
        Some(i)
    } else {
        first_at(t, i + 1, pat)
    }
}

pub open spec fn start_marker() -> Seq<char> {
    "<<<<<<<"@
}

pub open spec fn sep_marker() -> Seq<char> {
    "\n=======\n"@
}

pub open spec fn end_marker() -> Seq<char> {
    "\n>>>>>>>"@
}

/// The bounds of one conflict region: where the left text starts and ends,
/// where the right text starts and ends, and where the region ends.
pub struct Region {
    pub left_lo: usize,
    pub left_hi: usize,
    pub right_lo: usize,
    pub right_hi: usize,
    pub end: usize,
}

/// The region that starts at `s`, if one does: a start marker and the rest of
/// its line, the left text, the separator line, the right text, the end marker,
/// the rest of its line and its newline if there is one. Each text is the
/// shortest that lets the region close.
pub open spec fn region_at(t: Seq<char>, s: int) -> Option<(int, int, int, int, int)> {
    if !occurs_at(t, s, start_marker()) {
        None
    } else {
        match first_at(t, s + 7, "\n"@) {
            None => None,
            Some(nl) => match first_at(t, nl + 1, sep_marker()) {
                None => None,
                Some(j) => match first_at(t, j + 9, end_marker()) {
                    None => None,
                    Some(k) => match first_at(t, k + 8, "\n"@) {
                        None => Some((nl + 1, j, j + 9, k, t.len() as int)),
                        Some(e) => Some((nl + 1, j, j + 9, k, e + 1)),
                    },
                },
            },
        }
    }
}

/// The first region that starts at or after `from`, with its start.
pub open spec fn next_region(t: Seq<char>, from: int) -> Option<(int, (int, int, int, int, int))>
    decreases t.len() - from,
{
    if from < 0 || from >= t.len() {
        None
    } else {
        match region_at(t, from) {
            Some(r) => Some((from, r)),
            None => next_region(t, from + 1),
        }
    }
}

/// The notes of a merge, one per line.
pub open spec fn join_lines(ns: Seq<Seq<char>>) -> Seq<char>
    decreases ns.len(),
{
    if ns.len() == 0 {
        seq![]
    } else if ns.len() == 1 {
        ns[0]
    } else {
        join_lines(ns.drop_last()) + "\n"@ + ns.last()
    }
}

/// What replaces a region with texts `left` and `right`, and the fragments it
/// leaves for inspection.
pub open spec fn region_outcome(left: Seq<char>, right: Seq<char>) -> (Seq<char>, Seq<Seq<char>>) {
    match (tolerant_spec(trim_of(left)), tolerant_spec(trim_of(right))) {
        (Some(x), Some(y)) => {
            let m = merge_spec(x, y, seq![]);
            (pretty_text(m.0), if m.1.len() > 0 { seq![join_lines(m.1)] } else { seq![] })
        },
        (Some(x), None) => (pretty_text(x), seq![]),
        (None, Some(y)) => (pretty_text(y), seq![]),
        (None, None) => (right, seq![left, right]),
    }
}

/// The resolution of the document `t` from position `from` on: the text, the
/// fragments for inspection, and the number of regions.
pub open spec fn resolve_from(t: Seq<char>, from: int) -> (Seq<char>, Seq<Seq<char>>, nat)
    decreases t.len() - from,
{
    match next_region(t, from) {
        None => (t.subrange(from, t.len() as int), seq![], 0),
        Some((s, r)) => {
            if r.4 <= from || r.4 > t.len() {
                (t.subrange(from, t.len() as int), seq![], 0)
            } else {
                let o = region_outcome(t.subrange(r.0, r.1), t.subrange(r.2, r.3));
                let rest = resolve_from(t, r.4);
                (t.subrange(from, s) + o.0 + rest.0, o.1 + rest.1, rest.2 + 1)
            }
        },
    }
}

} // verus!

verus! {

/// The characters of `t` from `lo` up to `hi`.
fn slice_of(t: &Vec<char>, lo: usize, hi: usize) -> (r: Vec<char>)
    requires
        lo <= hi <= t@.len(),
    ensures
        r@ == t@.subrange(lo as int, hi as int),
{
    let mut r: Vec<char> = Vec::new();
    let mut i: usize = lo;
    while i < hi
        invariant
            lo <= i <= hi,
            hi <= t@.len(),
            r@ == t@.subrange(lo as int, i as int),
        decreases hi - i,
    {
        r.push(t[i]);
        i = i + 1;
        assert(r@ =~= t@.subrange(lo as int, i as int));
    }
    r
}

/// Whether `pat` occurs in `t` at `i`.
fn occurs_here(t: &Vec<char>, i: usize, pat: &Vec<char>) -> (r: bool)
    requires
        i <= t@.len(),
    ensures
        r == occurs_at(t@, i as int, pat@),
{
    if pat.len() > t.len() - i {
        return false;
    }
    let n = t.len();
    let mut k: usize = 0;
    while k < pat.len()
        invariant
            n == t@.len(),
            i + pat@.len() <= t@.len(),
            i <= t@.len(),
            k <= pat@.len(),
            forall|q: int| 0 <= q < k ==> t@[i + q] == pat@[q],
        decreases pat@.len() - k,
    {
        if t[i + k] != pat[k] {
            assert(t@.subrange(i as int, i + pat@.len())[k as int] != pat@[k as int]);
            return false;
        }
        k = k + 1;
    }
    assert(t@.subrange(i as int, i + pat@.len()) =~= pat@);
    true
}

/// The first position at or after `i` where `pat` occurs.
fn find_from(t: &Vec<char>, i: usize, pat: &Vec<char>) -> (r: Option<usize>)
    ensures
        match r {
            Some(x) => first_at(t@, i as int, pat@) == Some(x as int) && i <= x && x
                + pat@.len() <= t@.len(),
            None => first_at(t@, i as int, pat@) is None,
        },
{
    let mut j: usize = i;
    while j < t.len()
        invariant
            i <= j,
            first_at(t@, i as int, pat@) == first_at(t@, j as int, pat@),
        decreases t@.len() - j,
    {
        if pat.len() > t.len() - j {
            return None;
        }
        if occurs_here(t, j, pat) {
            return Some(j);
        }
        j = j + 1;
    }
    None
}

/// The region that starts at `s`, if one does.
fn region_here(t: &Vec<char>, s: usize, marks: &Marks) -> (r: Option<Region>)
    requires
        s < t@.len(),
        marks.wf(),
    ensures
        match r {
            Some(g) => region_at(t@, s as int) == Some(
                (
                    g.left_lo as int,
                    g.left_hi as int,
                    g.right_lo as int,
                    g.right_hi as int,
                    g.end as int,
                ),
            ),
            None => region_at(t@, s as int) is None,
        },
        r matches Some(g) ==> s < g.left_lo <= g.left_hi && g.left_hi + 9 == g.right_lo
            && g.right_lo <= g.right_hi < g.end <= t@.len(),
{
    proof {
        reveal_strlit("<<<<<<<");
        reveal_strlit("\n=======\n");
        reveal_strlit("\n>>>>>>>");
        reveal_strlit("\n");
    }
    let n = t.len();
    if !occurs_here(t, s, &marks.start) {
        return None;
    }
    let nl = match find_from(t, s + 7, &marks.newline) {
        Some(x) => x,
        None => return None,
    };
    let j = match find_from(t, nl + 1, &marks.sep) {
        Some(x) => x,
        None => return None,
    };
    let k = match find_from(t, j + 9, &marks.end) {
        Some(x) => x,
        None => return None,
    };
    let end = match find_from(t, k + 8, &marks.newline) {
        Some(e) => e + 1,
        None => t.len(),
    };
    Some(Region { left_lo: nl + 1, left_hi: j, right_lo: j + 9, right_hi: k, end })
}

/// The markers that bound a region, as characters.
struct Marks {
    start: Vec<char>,
    sep: Vec<char>,
    end: Vec<char>,
    newline: Vec<char>,
}

impl Marks {
    spec fn wf(&self) -> bool {
        &&& self.start@ == start_marker()
        &&& self.sep@ == sep_marker()
        &&& self.end@ == end_marker()
        &&& self.newline@ == "\n"@
    }

    fn new() -> (r: Marks)
        ensures
            r.wf(),
    {
        Marks {
            start: chars_of("<<<<<<<"),
            sep: chars_of("\n=======\n"),
            end: chars_of("\n>>>>>>>"),
            newline: chars_of("\n"),
        }
    }
}

} // verus!

verus! {

/// The first region that starts at or after `from`, with its start.
fn next_region_from(t: &Vec<char>, from: usize, marks: &Marks) -> (r: Option<(usize, Region)>)
    requires
        marks.wf(),
    ensures
        match r {
            Some((s, g)) => next_region(t@, from as int) == Some(
                (
                    s as int,
                    (
                        g.left_lo as int,
                        g.left_hi as int,
                        g.right_lo as int,
                        g.right_hi as int,
                        g.end as int,
                    ),
                ),
            ) && from <= s < g.left_lo <= g.left_hi && g.left_hi + 9 == g.right_lo
                && g.right_lo <= g.right_hi < g.end <= t@.len(),
            None => next_region(t@, from as int) is None,
        },
{
    let mut s: usize = from;
    while s < t.len()
        invariant
            from <= s,
            marks.wf(),
            next_region(t@, from as int) == next_region(t@, s as int),
        decreases t@.len() - s,
    {
        match region_here(t, s, marks) {
            Some(g) => {
                return Some((s, g));
            },
            None => {},
        }
        s = s + 1;
    }
    None
}

/// The notes of a merge joined into one text, one per line.
fn join_notes(ns: &Vec<Vec<char>>) -> (r: Vec<char>)
    ensures
        r@ == join_lines(texts_view(ns@)),
{
    let ghost d = texts_view(ns@);
    let nl = chars_of("\n");
    let mut acc: Vec<char> = Vec::new();
    let mut i: usize = 0;
    while i < ns.len()
        invariant
            d == texts_view(ns@),
            nl@ == "\n"@,
            i <= ns@.len(),
            acc@ == join_lines(d.take(i as int)),
        decreases ns@.len() - i,
    {
        assert(d.take(i + 1).drop_last() =~= d.take(i as int));
        if i > 0 {
            push_all(&mut acc, &nl);
        }
        push_all(&mut acc, &ns[i]);
        i = i + 1;
    }
    assert(d.take(ns@.len() as int) =~= d);
    acc
}

/// Resolves one region with texts `left` and `right`: the replacement text and
/// the fragments left for inspection.
fn resolve_region(left: &Vec<char>, right: &Vec<char>) -> (r: (Vec<char>, Vec<Vec<char>>))
    ensures
        (r.0@, texts_view(r.1@)) == region_outcome(left@, right@),
{
    let lt = trim_chars(left);
    let rt = trim_chars(right);
    let pa = tolerant_parse(&lt);
    let pb = tolerant_parse(&rt);
    let mut rejects: Vec<Vec<char>> = Vec::new();
    match (pa, pb) {
        (Some(x), Some(y)) => {
            let root: Vec<char> = Vec::new();
            assert(root@ =~= Seq::<char>::empty());
            let (m, notes) = merge_with_notes(&x, &y, &root);
            if notes.len() > 0 {
                let joined = join_notes(&notes);
                rejects.push(joined);
            }
            assert(texts_view(rejects@) =~= (if texts_view(notes@).len() > 0 {
                seq![join_lines(texts_view(notes@))]
            } else {
                seq![]
            }));
            (to_pretty(&m), rejects)
        },
        (Some(x), None) => {
            assert(texts_view(rejects@) =~= Seq::<Seq<char>>::empty());
            (to_pretty(&x), rejects)
        },
        (None, Some(y)) => {
            assert(texts_view(rejects@) =~= Seq::<Seq<char>>::empty());
            (to_pretty(&y), rejects)
        },
        (None, None) => {
            rejects.push(copy_chars(left));
            rejects.push(copy_chars(right));
            assert(texts_view(rejects@) =~= seq![left@, right@]);
            (copy_chars(right), rejects)
        },
    }
}

/// Resolves every two-sided conflict region of a document, left to right.
/// Text outside the regions is kept as it is; each region, markers included,
/// is replaced by the merge of its two sides, by the side that parses, or by
/// its right text when neither does.
pub fn resolve_conflicts(content: &str) -> (r: ConflictResolution)
    ensures
        r.content@ == resolve_from(content@, 0).0,
        strings_view(r.rejects@) == resolve_from(content@, 0).1,
        r.conflicts as nat == resolve_from(content@, 0).2,
        r.had_conflicts == (r.conflicts > 0),
{
    let t = chars_of(content);
    let ghost tv = t@;
    let marks = Marks::new();
    let mut out: Vec<char> = Vec::new();
    let mut rejects: Vec<Vec<char>> = Vec::new();
    let mut count: usize = 0;
    let mut cursor: usize = 0;
    let ghost whole = resolve_from(tv, 0);
    assert(out@ + whole.0 =~= whole.0);
    assert(texts_view(rejects@) + whole.1 =~= whole.1);
    loop
        invariant_except_break
            whole.0 == out@ + resolve_from(tv, cursor as int).0,
            whole.1 == texts_view(rejects@) + resolve_from(tv, cursor as int).1,
            whole.2 == count + resolve_from(tv, cursor as int).2,
        invariant
            tv == t@,
            marks.wf(),
            whole == resolve_from(tv, 0),
            cursor <= t@.len(),
            count <= cursor,
        ensures
            whole.0 == out@,
            whole.1 == texts_view(rejects@),
            whole.2 == count,
        decreases t@.len() - cursor,
    {
        match next_region_from(&t, cursor, &marks) {
            None => {
                let tail = slice_of(&t, cursor, t.len());
                push_all(&mut out, &tail);
                assert(texts_view(rejects@) + Seq::<Seq<char>>::empty() =~= texts_view(rejects@));
                break;
            },
            Some((s, g)) => {
                let ghost rest = resolve_from(tv, g.end as int);
                let before = slice_of(&t, cursor, s);
                let left = slice_of(&t, g.left_lo, g.left_hi);
                let right = slice_of(&t, g.right_lo, g.right_hi);
                let (o, rj) = resolve_region(&left, &right);
                let ghost prev_out = out@;
                let ghost prev_rej = texts_view(rejects@);
                push_all(&mut out, &before);
                push_all(&mut out, &o);
                append_notes(&mut rejects, rj);
                assert(whole.0 =~= out@ + rest.0);
                assert(whole.1 =~= texts_view(rejects@) + rest.1);
                count = count + 1;
                cursor = g.end;
            },
        }
    }
    let mut texts: Vec<String> = Vec::new();
    let mut i: usize = 0;
    while i < rejects.len()
        invariant
            i <= rejects@.len(),
            texts@.len() == i,
            forall|k: int| 0 <= k < i ==> (#[trigger] texts@[k])@ == rejects@[k]@,
        decreases rejects@.len() - i,
    {
        texts.push(string_of(&rejects[i]));
        i = i + 1;
    }
    assert(strings_view(texts@) =~= texts_view(rejects@));
    ConflictResolution {
        content: string_of(&out),
        rejects: texts,
        conflicts: count,
        had_conflicts: count > 0,
    }
}

} // verus!

verus! {

/// A document with no conflict region resolves to itself, with no fragment
/// and no region counted.
pub proof fn lemma_resolve_without_regions(t: Seq<char>)
    requires
        next_region(t, 0) is None,
    ensures
        resolve_from(t, 0) == (t, Seq::<Seq<char>>::empty(), 0nat),
{
    assert(t.subrange(0, t.len() as int) =~= t);
}

/// A region neither of whose sides parses is replaced by its right text, and
/// both texts, left first, are left for inspection.
pub proof fn lemma_unparseable_region(left: Seq<char>, right: Seq<char>)
    requires
        tolerant_spec(trim_of(left)) is None,
        tolerant_spec(trim_of(right)) is None,
    ensures
        region_outcome(left, right) == (right, seq![left, right]),
{
}

} // verus!
