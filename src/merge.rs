use vstd::prelude::*;

use crate::json::{compact_text, to_compact};
use crate::text::{
    byte_len, chars_of, occurs_in, push_all, same_chars, trim_chars, trim_of, utf8_len,
};
use crate::tree::{
    Tree, TreeV, copy_chars, entries_view, lemma_arr_view, lemma_obj_view, lemma_vec_child_decreases,
    trees_view,
};

verus! {

/// Strict order of keys: character by character, by code point; a proper
/// prefix comes first.
pub open spec fn key_lt(a: Seq<char>, b: Seq<char>) -> bool
    decreases a.len(),
{
    if b.len() == 0 {
        false
    } else if a.len() == 0 {
        true
    } else if a[0] != b[0] {
        (a[0] as u32) < (b[0] as u32)
    } else {
        key_lt(a.drop_first(), b.drop_first())
    }
}

/// No key comes before itself.
pub proof fn lemma_key_lt_irrefl(a: Seq<char>)
    ensures
        !key_lt(a, a),
    decreases a.len(),
{
    if a.len() > 0 {
        lemma_key_lt_irrefl(a.drop_first());
    }
}

/// The key order is transitive.
pub proof fn lemma_key_lt_trans(a: Seq<char>, b: Seq<char>, c: Seq<char>)
    requires
        key_lt(a, b),
        key_lt(b, c),
    ensures
        key_lt(a, c),
    decreases a.len(),
{
    if a.len() > 0 && b.len() > 0 && c.len() > 0 && a[0] == b[0] && b[0] == c[0] {
        lemma_key_lt_trans(a.drop_first(), b.drop_first(), c.drop_first());
    }
}

/// Two different keys are ordered one way or the other.
pub proof fn lemma_key_lt_total(a: Seq<char>, b: Seq<char>)
    requires
        a != b,
    ensures
        key_lt(a, b) || key_lt(b, a),
    decreases a.len(),
{
    if a.len() > 0 && b.len() > 0 && a[0] == b[0] {
        assert(a =~= seq![a[0]] + a.drop_first());
        assert(b =~= seq![b[0]] + b.drop_first());
        if a.drop_first() == b.drop_first() {
            assert(a =~= b);
        }
        lemma_key_lt_total(a.drop_first(), b.drop_first());
    } else if a.len() == 0 && b.len() == 0 {
        assert(a =~= b);
    } else if a.len() > 0 && b.len() > 0 {
        vstd::utf8::char_u32_cast(a[0], a[0] as u32);
        vstd::utf8::char_u32_cast(b[0], b[0] as u32);
    }
}

/// Keys of the entries strictly ascend, so each key occurs once.
pub open spec fn keys_sorted(es: Seq<(Seq<char>, TreeV)>) -> bool {
    forall|i: int, j: int| 0 <= i < j < es.len() ==> key_lt(#[trigger] es[i].0, #[trigger] es[j].0)
}

/// Every mapping in the tree has strictly ascending, hence unique, keys.
pub open spec fn tree_wf(t: TreeV) -> bool
    decreases t,
{
    match t {
        TreeV::Arr(xs) => forall|i: int| 0 <= i < xs.len() ==> tree_wf(#[trigger] xs[i]),
        TreeV::Obj(es) => keys_sorted(es) && forall|i: int| 0 <= i < es.len() ==> tree_wf(#[trigger] es[i].1),
        _ => true,
    }
}

/// Where the last dot-separated segment of the first `n` characters starts.
pub open spec fn seg_start(p: Seq<char>, n: int) -> int
    decreases n,
{
    if n <= 0 {
        0
    } else if p[n - 1] == '.' {
        n
    } else {
        seg_start(p, n - 1)
    }
}

/// The final key segment of a dot-joined path.
pub open spec fn last_segment(p: Seq<char>) -> Seq<char> {
    p.subrange(seg_start(p, p.len() as int), p.len() as int)
}

/// Fields whose differing texts are kept side by side rather than arbitrated.
pub open spec fn is_narrative(field: Seq<char>) -> bool {
    field == "definition"@ || field == "origin"@ || field == "story"@
}

/// The separator placed between two kept narrative variants.
pub open spec fn variant_sep() -> Seq<char> {
    "\n\n— MERGED VARIANT —\n\n"@
}

/// A note recording that `alt` was dropped at `path`.
pub open spec fn note_line(path: Seq<char>, alt: Seq<char>) -> Seq<char> {
    path + " => "@ + alt
}

/// The path of a child key below `path`.
pub open spec fn child_path(path: Seq<char>, key: Seq<char>) -> Seq<char> {
    if path.len() == 0 {
        key
    } else {
        path + "."@ + key
    }
}

/// The text by which sequence elements are told apart.
pub open spec fn dedup_key(t: TreeV) -> Seq<char> {
    match t {
        TreeV::Str(s) => s,
        _ => compact_text(t),
    }
}

/// Some element among the first `n` of `s` has dedup key `k`.
pub open spec fn key_seen(s: Seq<TreeV>, n: int, k: Seq<char>) -> bool {
    exists|j: int| 0 <= j < n && dedup_key(#[trigger] s[j]) == k
}

/// The elements of `s` whose dedup key did not occur earlier, in order.
pub open spec fn uniq(s: Seq<TreeV>) -> Seq<TreeV>
    decreases s.len(),
{
    if s.len() == 0 {
        seq![]
    } else {
        let u = uniq(s.drop_last());
        if key_seen(s, s.len() - 1, dedup_key(s.last())) {
            u
        } else {
            u.push(s.last())
        }
    }
}

/// The value stored under the first entry with key `k`.
pub open spec fn find_key(es: Seq<(Seq<char>, TreeV)>, k: Seq<char>) -> Option<TreeV>
    decreases es.len(),
{
    if es.len() == 0 {
        None
    } else if es[0].0 == k {
        Some(es[0].1)
    } else {
        find_key(es.drop_first(), k)
    }
}

/// Sets key `k` to `v`: in place where it stands, else before the first greater key.
pub open spec fn put_key(es: Seq<(Seq<char>, TreeV)>, k: Seq<char>, v: TreeV) -> Seq<
    (Seq<char>, TreeV),
>
    decreases es.len(),
{
    if es.len() == 0 {
        seq![(k, v)]
    } else if es[0].0 == k {
        seq![(k, v)] + es.drop_first()
    } else if key_lt(k, es[0].0) {
        seq![(k, v)] + es
    } else {
        seq![es[0]] + put_key(es.drop_first(), k, v)
    }
}

/// The existing notes text, trimmed and followed by a blank line, if any is there.
pub open spec fn notes_prefix(existing: Option<TreeV>) -> Seq<char> {
    match existing {
        Some(TreeV::Str(s)) => if trim_of(s).len() > 0 {
            trim_of(s) + "\n\n"@
        } else {
            seq![]
        },
        _ => seq![],
    }
}

/// One line per note.
pub open spec fn notes_body(ns: Seq<Seq<char>>) -> Seq<char>
    decreases ns.len(),
{
    if ns.len() == 0 {
        seq![]
    } else {
        notes_body(ns.drop_last()) + ns.last() + "\n"@
    }
}

/// The synthesized `notes` text of a mapping whose children left notes.
pub open spec fn notes_text(existing: Option<TreeV>, ns: Seq<Seq<char>>) -> Seq<char> {
    trim_of(notes_prefix(existing) + "ALT VARIANTS:\n"@ + notes_body(ns))
}

/// The entries of a merged mapping once its children's notes are absorbed.
pub open spec fn absorb_notes(es: Seq<(Seq<char>, TreeV)>, ns: Seq<Seq<char>>) -> Seq<
    (Seq<char>, TreeV),
> {
    if ns.len() == 0 {
        es
    } else {
        put_key(es, "notes"@, TreeV::Str(notes_text(find_key(es, "notes"@), ns)))
    }
}

/// Merges the entries of two mappings walked in key order; the notes of
/// children merged under shared keys are collected in order.
pub open spec fn walk(ea: Seq<(Seq<char>, TreeV)>, eb: Seq<(Seq<char>, TreeV)>, path: Seq<char>) -> (
    Seq<(Seq<char>, TreeV)>,
    Seq<Seq<char>>,
)
    decreases ea, eb,
{
    if ea.len() == 0 {
        (eb, seq![])
    } else if eb.len() == 0 {
        (ea, seq![])
    } else if ea[0].0 == eb[0].0 {
        let m = merge_spec(ea[0].1, eb[0].1, child_path(path, ea[0].0));
        let rest = walk(ea.drop_first(), eb.drop_first(), path);
        (seq![(ea[0].0, m.0)] + rest.0, m.1 + rest.1)
    } else if key_lt(ea[0].0, eb[0].0) {
        let rest = walk(ea.drop_first(), eb, path);
        (seq![ea[0]] + rest.0, rest.1)
    } else {
        let rest = walk(ea, eb.drop_first(), path);
        (seq![eb[0]] + rest.0, rest.1)
    }
}

/// The structural merge of two trees at `path`: the merged tree and the notes
/// that reach the caller.
pub open spec fn merge_spec(a: TreeV, b: TreeV, path: Seq<char>) -> (TreeV, Seq<Seq<char>>)
    decreases a, b,
{
    match (a, b) {
        (TreeV::Obj(ea), TreeV::Obj(eb)) => {
            let w = walk(ea, eb, path);
            (TreeV::Obj(absorb_notes(w.0, w.1)), seq![])
        },
        (TreeV::Arr(xa), TreeV::Arr(xb)) => (TreeV::Arr(uniq(xa + xb)), seq![]),
        (TreeV::Str(sa), TreeV::Str(sb)) => {
            if sa == sb {
                (a, seq![])
            } else if is_narrative(last_segment(path)) {
                (TreeV::Str(sa + variant_sep() + sb), seq![])
            } else if byte_len(sb) >= byte_len(sa) {
                (b, seq![note_line(path, sa)])
            } else {
                (a, seq![note_line(path, sb)])
            }
        },
        (TreeV::Num(_), TreeV::Num(_)) => (b, seq![]),
        (TreeV::Bool(_), TreeV::Bool(_)) => (b, seq![]),
        (TreeV::Null, _) => (b, seq![]),
        (_, TreeV::Null) => (a, seq![]),
        _ => (b, seq![note_line(path, compact_text(a))]),
    }
}

} // verus!

verus! {

/// The model of a run of texts.
pub open spec fn texts_view(v: Seq<Vec<char>>) -> Seq<Seq<char>> {
    Seq::new(v.len(), |i: int| v[i]@)
}

/// Whether key `a` comes strictly before key `b`.
pub fn key_less(a: &Vec<char>, b: &Vec<char>) -> (r: bool)
    ensures
        r == key_lt(a@, b@),
{
    let mut i: usize = 0;
    assert(a@.skip(0) =~= a@);
    assert(b@.skip(0) =~= b@);
    while i < a.len() && i < b.len()
        invariant
            i <= a@.len(),
            i <= b@.len(),
            key_lt(a@, b@) == key_lt(a@.skip(i as int), b@.skip(i as int)),
        decreases a@.len() - i,
    {
        if a[i] != b[i] {
            return (a[i] as u32) < (b[i] as u32);
        }
        assert(a@.skip(i as int).drop_first() =~= a@.skip(i + 1));
        assert(b@.skip(i as int).drop_first() =~= b@.skip(i + 1));
        i = i + 1;
    }
    i < b.len()
}

/// Whether the last segment of `path` names a narrative field.
fn narrative_path(path: &Vec<char>) -> (r: bool)
    ensures
        r == is_narrative(last_segment(path@)),
{
    let mut start: usize = 0;
    let mut i: usize = 0;
    while i < path.len()
        invariant
            i <= path@.len(),
            start as int == seg_start(path@, i as int),
            start <= i,
        decreases path@.len() - i,
    {
        if path[i] == '.' {
            start = i + 1;
        }
        i = i + 1;
    }
    let mut seg: Vec<char> = Vec::new();
    let mut k: usize = start;
    while k < path.len()
        invariant
            start <= k <= path@.len(),
            seg@ == path@.subrange(start as int, k as int),
        decreases path@.len() - k,
    {
        seg.push(path[k]);
        k = k + 1;
        assert(seg@ =~= path@.subrange(start as int, k as int));
    }
    let d = chars_of("definition");
    let o = chars_of("origin");
    let s = chars_of("story");
    same_chars(&seg, &d) || same_chars(&seg, &o) || same_chars(&seg, &s)
}

/// The path of child `key` below `path`.
fn child_path_of(path: &Vec<char>, key: &Vec<char>) -> (r: Vec<char>)
    ensures
        r@ == child_path(path@, key@),
{
    if path.len() == 0 {
        copy_chars(key)
    } else {
        let mut r = copy_chars(path);
        let dot = chars_of(".");
        push_all(&mut r, &dot);
        push_all(&mut r, key);
        r
    }
}

/// The note that `alt` was dropped at `path`.
fn note_of(path: &Vec<char>, alt: &Vec<char>) -> (r: Vec<char>)
    ensures
        r@ == note_line(path@, alt@),
{
    let mut r = copy_chars(path);
    let arrow = chars_of(" => ");
    push_all(&mut r, &arrow);
    push_all(&mut r, alt);
    r
}

/// The dedup key of a sequence element.
fn dedup_key_of(t: &Tree) -> (r: Vec<char>)
    ensures
        r@ == dedup_key(t@),
{
    match t {
        Tree::Str(s) => copy_chars(s),
        _ => to_compact(t),
    }
}

/// Whether some entry of `seen` equals `k`.
fn seen_contains(seen: &Vec<Vec<char>>, k: &Vec<char>) -> (r: bool)
    ensures
        r == exists|m: int| 0 <= m < seen@.len() && (#[trigger] seen@[m])@ == k@,
{
    let mut m: usize = 0;
    while m < seen.len()
        invariant
            m <= seen@.len(),
            forall|q: int| 0 <= q < m ==> (#[trigger] seen@[q])@ != k@,
        decreases seen@.len() - m,
    {
        if same_chars(&seen[m], k) {
            return true;
        }
        m = m + 1;
    }
    false
}

pub proof fn lemma_key_seen_prefix(s: Seq<TreeV>, t: Seq<TreeV>, n: int, x: Seq<char>)
    requires
        0 <= n <= s.len(),
        n <= t.len(),
        forall|j: int| 0 <= j < n ==> s[j] == t[j],
    ensures
        key_seen(s, n, x) == key_seen(t, n, x),
{
    if key_seen(s, n, x) {
        let j = choose|j: int| 0 <= j < n && dedup_key(#[trigger] s[j]) == x;
        assert(dedup_key(t[j]) == x);
    }
    if key_seen(t, n, x) {
        let j = choose|j: int| 0 <= j < n && dedup_key(#[trigger] t[j]) == x;
        assert(dedup_key(s[j]) == x);
    }
}

/// A key occurs among the kept elements exactly when it occurs in the input.
pub proof fn lemma_uniq_keys(s: Seq<TreeV>, x: Seq<char>)
    ensures
        (exists|m: int| 0 <= m < uniq(s).len() && dedup_key(#[trigger] uniq(s)[m]) == x)
            == key_seen(s, s.len() as int, x),
    decreases s.len(),
{
    if s.len() > 0 {
        let p = s.drop_last();
        let u = uniq(p);
        lemma_uniq_keys(p, x);
        lemma_key_seen_prefix(s, p, s.len() - 1, x);
        lemma_uniq_keys(p, dedup_key(s.last()));
        lemma_key_seen_prefix(s, p, s.len() - 1, dedup_key(s.last()));
        if key_seen(s, s.len() as int, x) {
            let j = choose|j: int| 0 <= j < s.len() && dedup_key(#[trigger] s[j]) == x;
            if j < s.len() - 1 {
                assert(key_seen(s, s.len() - 1, x));
                let m = choose|m: int| 0 <= m < u.len() && dedup_key(#[trigger] u[m]) == x;
                assert(uniq(s)[m] == u[m]);
            } else if key_seen(s, s.len() - 1, dedup_key(s.last())) {
                let m = choose|m: int| 0 <= m < u.len() && dedup_key(#[trigger] u[m])
                    == dedup_key(s.last());
                assert(uniq(s)[m] == u[m]);
            } else {
                assert(uniq(s)[u.len() as int] == s.last());
            }
        }
        if exists|m: int| 0 <= m < uniq(s).len() && dedup_key(#[trigger] uniq(s)[m]) == x {
            let m = choose|m: int| 0 <= m < uniq(s).len() && dedup_key(#[trigger] uniq(s)[m]) == x;
            if m < u.len() {
                assert(uniq(s)[m] == u[m]);
                assert(key_seen(p, p.len() as int, x));
                let j = choose|j: int| 0 <= j < p.len() && dedup_key(#[trigger] p[j]) == x;
                assert(s[j] == p[j]);
            } else {
                assert(uniq(s)[m] == s.last());
                assert(dedup_key(s[s.len() - 1]) == x);
            }
        }
    }
}

/// Appends to `merged` the elements of `v` whose dedup key is not yet in `seen`.
fn push_unseen(
    seen: &mut Vec<Vec<char>>,
    merged: &mut Vec<Tree>,
    v: &Vec<Tree>,
    Ghost(done): Ghost<Seq<TreeV>>,
)
    requires
        trees_view(old(merged)@) == uniq(done),
        old(seen)@.len() == old(merged)@.len(),
        forall|m: int|
            0 <= m < old(seen)@.len() ==> (#[trigger] old(seen)@[m])@ == dedup_key(
                old(merged)@[m]@,
            ),
    ensures
        trees_view(final(merged)@) == uniq(done + trees_view(v@)),
        final(seen)@.len() == final(merged)@.len(),
        forall|m: int|
            0 <= m < final(seen)@.len() ==> (#[trigger] final(seen)@[m])@ == dedup_key(
                final(merged)@[m]@,
            ),
{
    let ghost s = done + trees_view(v@);
    let ghost n0 = done.len() as int;
    assert(s.take(n0) =~= done);
    let mut k: usize = 0;
    while k < v.len()
        invariant
            s == done + trees_view(v@),
            n0 == done.len(),
            k <= v@.len(),
            trees_view(merged@) == uniq(s.take(n0 + k)),
            seen@.len() == merged@.len(),
            forall|m: int| 0 <= m < seen@.len() ==> (#[trigger] seen@[m])@ == dedup_key(merged@[m]@),
        decreases v@.len() - k,
    {
        let e: &Tree = &v[k];
        let ghost n = n0 + k;
        assert(e@ == s[n]);
        let key = dedup_key_of(e);
        let found = seen_contains(seen, &key);
        let ghost t = s.take(n + 1);
        assert(t.drop_last() =~= s.take(n));
        assert(t.last() == s[n]);
        proof {
            lemma_uniq_keys(s.take(n), key@);
            lemma_key_seen_prefix(t, s.take(n), n, key@);
            if found {
                let m = choose|m: int| 0 <= m < seen@.len() && (#[trigger] seen@[m])@ == key@;
                assert(dedup_key(uniq(s.take(n))[m]) == key@);
            }
            if exists|m: int|
                0 <= m < uniq(s.take(n)).len() && dedup_key(#[trigger] uniq(s.take(n))[m])
                    == key@ {
                let m = choose|m: int|
                    0 <= m < uniq(s.take(n)).len() && dedup_key(#[trigger] uniq(s.take(n))[m])
                        == key@;
                assert(seen@[m]@ == key@);
            }
        }
        if !found {
            let c = e.deep_copy();
            seen.push(key);
            merged.push(c);
            assert(trees_view(merged@) =~= uniq(s.take(n)).push(s[n]));
        }
        k = k + 1;
    }
    assert(s.take(n0 + v@.len()) =~= s);
}

/// The union of two sequences, first occurrence of each dedup key kept, `a` before `b`.
pub fn merge_arrays(a: &Vec<Tree>, b: &Vec<Tree>) -> (r: Vec<Tree>)
    ensures
        trees_view(r@) == uniq(trees_view(a@) + trees_view(b@)),
{
    let mut seen: Vec<Vec<char>> = Vec::new();
    let mut merged: Vec<Tree> = Vec::new();
    assert(trees_view(merged@) =~= uniq(Seq::<TreeV>::empty()));
    push_unseen(&mut seen, &mut merged, a, Ghost(Seq::empty()));
    assert(Seq::<TreeV>::empty() + trees_view(a@) =~= trees_view(a@));
    push_unseen(&mut seen, &mut merged, b, Ghost(trees_view(a@)));
    merged
}

} // verus!

verus! {

/// The normalized existing `notes` text of a mapping's entries.
fn notes_prefix_of(es: &Vec<(Vec<char>, Tree)>) -> (r: Vec<char>)
    ensures
        r@ == notes_prefix(find_key(entries_view(es@), "notes"@)),
{
    let ghost ev = entries_view(es@);
    let key = chars_of("notes");
    let mut i: usize = 0;
    assert(ev.skip(0) =~= ev);
    while i < es.len()
        invariant
            ev == entries_view(es@),
            key@ == "notes"@,
            i <= es@.len(),
            find_key(ev, key@) == find_key(ev.skip(i as int), key@),
        decreases es@.len() - i,
    {
        assert(ev.skip(i as int)[0] == ev[i as int]);
        if same_chars(&es[i].0, &key) {
            match &es[i].1 {
                Tree::Str(s) => {
                    let mut t = trim_chars(s);
                    if t.len() > 0 {
                        let gap = chars_of("\n\n");
                        push_all(&mut t, &gap);
                    }
                    return t;
                },
                _ => {
                    return Vec::new();
                },
            }
        }
        assert(ev.skip(i as int).drop_first() =~= ev.skip(i + 1));
        i = i + 1;
    }
    Vec::new()
}

/// The lines of the collected notes.
fn notes_body_of(ns: &Vec<Vec<char>>) -> (r: Vec<char>)
    ensures
        r@ == notes_body(texts_view(ns@)),
{
    let ghost d = texts_view(ns@);
    let mut acc: Vec<char> = Vec::new();
    let nl = chars_of("\n");
    let mut i: usize = 0;
    while i < ns.len()
        invariant
            d == texts_view(ns@),
            nl@ == "\n"@,
            i <= ns@.len(),
            acc@ == notes_body(d.take(i as int)),
        decreases ns@.len() - i,
    {
        push_all(&mut acc, &ns[i]);
        push_all(&mut acc, &nl);
        assert(d.take(i + 1).drop_last() =~= d.take(i as int));
        i = i + 1;
    }
    assert(d.take(ns@.len() as int) =~= d);
    acc
}

/// Sets key `k` to `v` in a mapping's entries.
pub fn put_entry(es: &mut Vec<(Vec<char>, Tree)>, k: Vec<char>, v: Tree)
    ensures
        entries_view(final(es)@) == put_key(entries_view(old(es)@), k@, v@),
{
    let ghost ev = entries_view(es@);
    let ghost kv = k@;
    let ghost vv = v@;
    let mut i: usize = 0;
    assert(ev.skip(0) =~= ev);
    assert(ev.take(0) + put_key(ev.skip(0), kv, vv) =~= put_key(ev, kv, vv));
    while i < es.len()
        invariant
            ev == entries_view(es@),
            es@ == old(es)@,
            kv == k@,
            vv == v@,
            i <= es@.len(),
            put_key(ev, kv, vv) == ev.take(i as int) + put_key(ev.skip(i as int), kv, vv),
        decreases es@.len() - i,
    {
        assert(ev.skip(i as int)[0] == ev[i as int]);
        if same_chars(&es[i].0, &k) {
            assert(put_key(ev.skip(i as int), kv, vv) == seq![(kv, vv)] + ev.skip(
                i as int,
            ).drop_first());
            es.remove(i);
            es.insert(i, (k, v));
            assert(entries_view(es@) =~= ev.take(i as int) + (seq![(kv, vv)] + ev.skip(
                i as int,
            ).drop_first()));
            return;
        }
        if key_less(&k, &es[i].0) {
            assert(put_key(ev.skip(i as int), kv, vv) == seq![(kv, vv)] + ev.skip(i as int));
            es.insert(i, (k, v));
            assert(entries_view(es@) =~= ev.take(i as int) + (seq![(kv, vv)] + ev.skip(
                i as int,
            )));
            return;
        }
        assert(ev.skip(i as int).drop_first() =~= ev.skip(i + 1));
        assert(ev.take(i + 1) =~= ev.take(i as int) + seq![ev[i as int]]);
        i = i + 1;
    }
    es.push((k, v));
    assert(entries_view(es@) =~= ev.take(i as int) + seq![(kv, vv)]);
}

/// Appends the notes of `src` to `dst`.
pub fn append_notes(dst: &mut Vec<Vec<char>>, src: Vec<Vec<char>>)
    ensures
        texts_view(final(dst)@) == texts_view(old(dst)@) + texts_view(src@),
{
    let ghost n0 = dst@.len() as int;
    let mut i: usize = 0;
    while i < src.len()
        invariant
            i <= src@.len(),
            n0 == old(dst)@.len(),
            dst@.len() == n0 + i,
            forall|k: int| 0 <= k < n0 ==> (#[trigger] dst@[k])@ == old(dst)@[k]@,
            forall|k: int| n0 <= k < n0 + i ==> (#[trigger] dst@[k])@ == src@[k - n0]@,
        decreases src@.len() - i,
    {
        let c = copy_chars(&src[i]);
        dst.push(c);
        i = i + 1;
    }
    assert(texts_view(dst@) =~= texts_view(old(dst)@) + texts_view(src@));
}

} // verus!

verus! {

/// Appends copies of the entries of `src` from index `start` on.
fn copy_entries_from(out: &mut Vec<(Vec<char>, Tree)>, src: &Vec<(Vec<char>, Tree)>, start: usize)
    requires
        start <= src@.len(),
    ensures
        entries_view(final(out)@) == entries_view(old(out)@) + entries_view(src@).skip(
            start as int,
        ),
{
    let ghost n0 = out@.len() as int;
    let mut i: usize = start;
    while i < src.len()
        invariant
            start <= i <= src@.len(),
            n0 == old(out)@.len(),
            out@.len() == n0 + (i - start),
            forall|k: int|
                0 <= k < n0 ==> (#[trigger] out@[k]).0@ == old(out)@[k].0@ && out@[k].1@
                    == old(out)@[k].1@,
            forall|k: int|
                n0 <= k < out@.len() ==> (#[trigger] out@[k]).0@ == src@[k - n0 + start].0@
                    && out@[k].1@ == src@[k - n0 + start].1@,
        decreases src@.len() - i,
    {
        let k = copy_chars(&src[i].0);
        let c = src[i].1.deep_copy();
        out.push((k, c));
        i = i + 1;
    }
    assert(entries_view(out@) =~= entries_view(old(out)@) + entries_view(src@).skip(
        start as int,
    ));
}

/// Merges two trees at key path `path` and returns the merged tree together
/// with the notes left for the enclosing mapping (always none for a mapping,
/// which absorbs its children's notes into its own `notes` field).
pub fn merge_with_notes(a: &Tree, b: &Tree, path: &Vec<char>) -> (r: (Tree, Vec<Vec<char>>))
    requires
        tree_wf(a@),
        tree_wf(b@),
    ensures
        (r.0@, texts_view(r.1@)) == merge_spec(a@, b@, path@),
    decreases a,
{
    let none: Vec<Vec<char>> = Vec::new();
    assert(texts_view(none@) =~= Seq::<Seq<char>>::empty());
    match (a, b) {
        (Tree::Obj(ea), Tree::Obj(eb)) => {
            let ghost xa = entries_view(ea@);
            let ghost xb = entries_view(eb@);
            proof {
                lemma_obj_view(*ea);
                lemma_obj_view(*eb);
            }
            let ghost w = walk(xa, xb, path@);
            let mut out: Vec<(Vec<char>, Tree)> = Vec::new();
            let mut notes: Vec<Vec<char>> = Vec::new();
            let mut i: usize = 0;
            let mut j: usize = 0;
            assert(xa.skip(0) =~= xa);
            assert(xb.skip(0) =~= xb);
            assert(entries_view(out@) + w.0 =~= w.0);
            assert(texts_view(notes@) + w.1 =~= w.1);
            while i < ea.len() && j < eb.len()
                invariant
                    xa == entries_view(ea@),
                    xb == entries_view(eb@),
                    w == walk(xa, xb, path@),
                    decreases_to!(*a => *ea),
                    tree_wf(TreeV::Obj(xa)),
                    tree_wf(TreeV::Obj(xb)),
                    i <= ea@.len(),
                    j <= eb@.len(),
                    w.0 == entries_view(out@) + walk(xa.skip(i as int), xb.skip(j as int), path@).0,
                    w.1 == texts_view(notes@) + walk(xa.skip(i as int), xb.skip(j as int), path@).1,
                decreases ea@.len() - i + eb@.len() - j,
            {
                let ghost sa = xa.skip(i as int);
                let ghost sb = xb.skip(j as int);
                assert(sa[0] == xa[i as int]);
                assert(sb[0] == xb[j as int]);
                assert(sa.drop_first() =~= xa.skip(i + 1));
                assert(sb.drop_first() =~= xb.skip(j + 1));
                let ghost prev_out = entries_view(out@);
                let ghost prev_notes = texts_view(notes@);
                if same_chars(&ea[i].0, &eb[j].0) {
                    proof {
                        lemma_vec_child_decreases(*ea, i as int);
                    }
                    assert(tree_wf(xa[i as int].1));
                    assert(tree_wf(xb[j as int].1));
                    let cp = child_path_of(path, &ea[i].0);
                    let (m, n) = merge_with_notes(&ea[i].1, &eb[j].1, &cp);
                    let k = copy_chars(&ea[i].0);
                    let ghost rest = walk(xa.skip(i + 1), xb.skip(j + 1), path@);
                    let ghost mv = m@;
                    out.push((k, m));
                    append_notes(&mut notes, n);
                    assert(entries_view(out@) =~= prev_out.push((xa[i as int].0, mv)));
                    assert(w.0 =~= entries_view(out@) + rest.0);
                    assert(w.1 =~= texts_view(notes@) + rest.1);
                    i = i + 1;
                    j = j + 1;
                } else if key_less(&ea[i].0, &eb[j].0) {
                    let k = copy_chars(&ea[i].0);
                    let c = ea[i].1.deep_copy();
                    let ghost rest = walk(xa.skip(i + 1), xb.skip(j as int), path@);
                    out.push((k, c));
                    assert(entries_view(out@) =~= prev_out.push(xa[i as int]));
                    assert(w.0 =~= entries_view(out@) + rest.0);
                    i = i + 1;
                } else {
                    let k = copy_chars(&eb[j].0);
                    let c = eb[j].1.deep_copy();
                    let ghost rest = walk(xa.skip(i as int), xb.skip(j + 1), path@);
                    out.push((k, c));
                    assert(entries_view(out@) =~= prev_out.push(xb[j as int]));
                    assert(w.0 =~= entries_view(out@) + rest.0);
                    j = j + 1;
                }
            }
            if i == ea.len() {
                assert(xa.skip(i as int).len() == 0);
                copy_entries_from(&mut out, eb, j);
            } else {
                assert(xb.skip(j as int).len() == 0);
                copy_entries_from(&mut out, ea, i);
            }
            assert(texts_view(notes@) =~= w.1);
            assert(entries_view(out@) == w.0);
            if notes.len() > 0 {
                let mut text = notes_prefix_of(&out);
                let header = chars_of("ALT VARIANTS:\n");
                push_all(&mut text, &header);
                let body = notes_body_of(&notes);
                push_all(&mut text, &body);
                let trimmed = trim_chars(&text);
                let key = chars_of("notes");
                put_entry(&mut out, key, Tree::Str(trimmed));
            }
            proof {
                lemma_obj_view(out);
            }
            (Tree::Obj(out), none)
        },
        (Tree::Arr(xa), Tree::Arr(xb)) => {
            let m = merge_arrays(xa, xb);
            proof {
                lemma_arr_view(m);
                lemma_arr_view(*xa);
                lemma_arr_view(*xb);
            }
            (Tree::Arr(m), none)
        },
        (Tree::Str(sa), Tree::Str(sb)) => {
            if same_chars(sa, sb) {
                (a.deep_copy(), none)
            } else if narrative_path(path) {
                let mut m = copy_chars(sa);
                let sep = chars_of("\n\n— MERGED VARIANT —\n\n");
                push_all(&mut m, &sep);
                push_all(&mut m, sb);
                (Tree::Str(m), none)
            } else if utf8_len(sb) >= utf8_len(sa) {
                let n = note_of(path, sa);
                let notes = vec![n];
                assert(texts_view(notes@) =~= seq![note_line(path@, sa@)]);
                (b.deep_copy(), notes)
            } else {
                let n = note_of(path, sb);
                let notes = vec![n];
                assert(texts_view(notes@) =~= seq![note_line(path@, sb@)]);
                (a.deep_copy(), notes)
            }
        },
        (Tree::Num(_), Tree::Num(_)) => (b.deep_copy(), none),
        (Tree::Bool(_), Tree::Bool(_)) => (b.deep_copy(), none),
        (Tree::Null, _) => (b.deep_copy(), none),
        (_, Tree::Null) => (a.deep_copy(), none),
        _ => {
            let c = to_compact(a);
            let n = note_of(path, &c);
            let notes = vec![n];
            assert(texts_view(notes@) =~= seq![note_line(path@, compact_text(a@))]);
            (b.deep_copy(), notes)
        },
    }
}

} // verus!

verus! {

/// Two numbers, two booleans or two nulls merge to the right operand.
pub proof fn lemma_merge_same_primitive(a: TreeV, b: TreeV, path: Seq<char>)
    requires
        (a is Num && b is Num) || (a is Bool && b is Bool) || (a is Null && b is Null),
    ensures
        merge_spec(a, b, path).0 == b,
        merge_spec(a, b, path).1.len() == 0,
{
}

/// A string merged with itself is kept, with no note, at any path.
pub proof fn lemma_merge_equal_strings(s: Seq<char>, path: Seq<char>)
    ensures
        merge_spec(TreeV::Str(s), TreeV::Str(s), path) == (TreeV::Str(s), Seq::<Seq<char>>::empty()),
{
}

/// At a narrative field, two strings that differ once trimmed are both kept in
/// the merged text.
pub proof fn lemma_merge_narrative_keeps_both(a: Seq<char>, b: Seq<char>, path: Seq<char>)
    requires
        is_narrative(last_segment(path)),
        trim_of(a) != trim_of(b),
    ensures
        merge_spec(TreeV::Str(a), TreeV::Str(b), path).0 is Str,
        occurs_in(a, merge_spec(TreeV::Str(a), TreeV::Str(b), path).0->Str_0),
        occurs_in(b, merge_spec(TreeV::Str(a), TreeV::Str(b), path).0->Str_0),
{
    let m = a + variant_sep() + b;
    assert(a != b);
    assert(merge_spec(TreeV::Str(a), TreeV::Str(b), path).0 == TreeV::Str(m));
    assert(m.subrange(0, 0 + a.len() as int) =~= a);
    assert(occurs_in(a, m));
    let off = (a.len() + variant_sep().len()) as int;
    assert(m.subrange(off, off + b.len() as int) =~= b);
    assert(occurs_in(b, m));
}

/// Elsewhere than at a narrative field, two strings merge to the one with more
/// bytes, and to the right one when both have as many.
pub proof fn lemma_merge_longer_string_wins(a: Seq<char>, b: Seq<char>, path: Seq<char>)
    requires
        !is_narrative(last_segment(path)),
    ensures
        merge_spec(TreeV::Str(a), TreeV::Str(b), path).0 == (if byte_len(b) >= byte_len(a) {
            TreeV::Str(b)
        } else {
            TreeV::Str(a)
        }),
{
}

/// Some entry of `es` has key `k`.
pub open spec fn has_key(es: Seq<(Seq<char>, TreeV)>, k: Seq<char>) -> bool {
    exists|i: int| 0 <= i < es.len() && (#[trigger] es[i]).0 == k
}

proof fn lemma_has_key_cons(e: (Seq<char>, TreeV), es: Seq<(Seq<char>, TreeV)>, k: Seq<char>)
    ensures
        has_key(seq![e] + es, k) == (e.0 == k || has_key(es, k)),
{
    let s = seq![e] + es;
    if has_key(es, k) {
        let i = choose|i: int| 0 <= i < es.len() && (#[trigger] es[i]).0 == k;
        assert(s[i + 1] == es[i]);
    }
    if e.0 == k {
        assert(s[0] == e);
    }
    if has_key(s, k) {
        let i = choose|i: int| 0 <= i < s.len() && (#[trigger] s[i]).0 == k;
        if i > 0 {
            assert(s[i] == es[i - 1]);
        }
    }
}

proof fn lemma_has_key_tail(es: Seq<(Seq<char>, TreeV)>, k: Seq<char>)
    requires
        es.len() > 0,
    ensures
        has_key(es, k) == (es[0].0 == k || has_key(es.drop_first(), k)),
{
    assert(es =~= seq![es[0]] + es.drop_first());
    lemma_has_key_cons(es[0], es.drop_first(), k);
}

proof fn lemma_walk_keys(ea: Seq<(Seq<char>, TreeV)>, eb: Seq<(Seq<char>, TreeV)>, path: Seq<char>, k: Seq<char>)
    requires
        has_key(ea, k) || has_key(eb, k),
    ensures
        has_key(walk(ea, eb, path).0, k),
    decreases ea.len() + eb.len(),
{
    if ea.len() > 0 && eb.len() > 0 {
        lemma_has_key_tail(ea, k);
        lemma_has_key_tail(eb, k);
        if ea[0].0 == eb[0].0 {
            let m = merge_spec(ea[0].1, eb[0].1, child_path(path, ea[0].0));
            let rest = walk(ea.drop_first(), eb.drop_first(), path);
            lemma_has_key_cons((ea[0].0, m.0), rest.0, k);
            if ea[0].0 != k {
                lemma_walk_keys(ea.drop_first(), eb.drop_first(), path, k);
            }
        } else if key_lt(ea[0].0, eb[0].0) {
            let rest = walk(ea.drop_first(), eb, path);
            lemma_has_key_cons(ea[0], rest.0, k);
            if ea[0].0 != k {
                lemma_walk_keys(ea.drop_first(), eb, path, k);
            }
        } else {
            let rest = walk(ea, eb.drop_first(), path);
            lemma_has_key_cons(eb[0], rest.0, k);
            if eb[0].0 != k {
                lemma_walk_keys(ea, eb.drop_first(), path, k);
            }
        }
    }
}

proof fn lemma_put_key_keeps(es: Seq<(Seq<char>, TreeV)>, k: Seq<char>, v: TreeV, x: Seq<char>)
    requires
        has_key(es, x),
    ensures
        has_key(put_key(es, k, v), x),
    decreases es.len(),
{
    lemma_has_key_tail(es, x);
    if es[0].0 == k {
        lemma_has_key_cons((k, v), es.drop_first(), x);
    } else if key_lt(k, es[0].0) {
        lemma_has_key_cons((k, v), es, x);
    } else {
        if es[0].0 != x {
            lemma_put_key_keeps(es.drop_first(), k, v, x);
        }
        lemma_has_key_cons(es[0], put_key(es.drop_first(), k, v), x);
    }
}

/// Merging two mappings keeps every key of either.
pub proof fn lemma_merge_key_complete(
    ea: Seq<(Seq<char>, TreeV)>,
    eb: Seq<(Seq<char>, TreeV)>,
    path: Seq<char>,
    k: Seq<char>,
)
    requires
        has_key(ea, k) || has_key(eb, k),
    ensures
        merge_spec(TreeV::Obj(ea), TreeV::Obj(eb), path).0 is Obj,
        has_key(merge_spec(TreeV::Obj(ea), TreeV::Obj(eb), path).0->Obj_0, k),
{
    let w = walk(ea, eb, path);
    lemma_walk_keys(ea, eb, path, k);
    if w.1.len() > 0 {
        lemma_put_key_keeps(w.0, "notes"@, TreeV::Str(notes_text(find_key(w.0, "notes"@), w.1)), k);
    }
}

proof fn lemma_uniq_distinct(s: Seq<TreeV>)
    ensures
        forall|m1: int, m2: int|
            0 <= m1 < m2 < uniq(s).len() ==> dedup_key(#[trigger] uniq(s)[m1]) != dedup_key(
                #[trigger] uniq(s)[m2],
            ),
    decreases s.len(),
{
    if s.len() > 0 {
        let p = s.drop_last();
        lemma_uniq_distinct(p);
        lemma_uniq_keys(p, dedup_key(s.last()));
        lemma_key_seen_prefix(s, p, s.len() - 1, dedup_key(s.last()));
        let u = uniq(s);
        assert forall|m1: int, m2: int| 0 <= m1 < m2 < u.len() implies dedup_key(
            #[trigger] u[m1],
        ) != dedup_key(#[trigger] u[m2]) by {
            if m2 < uniq(p).len() {
                assert(u[m1] == uniq(p)[m1]);
                assert(u[m2] == uniq(p)[m2]);
            } else {
                assert(u[m1] == uniq(p)[m1]);
            }
        }
    }
}

proof fn lemma_uniq_first(s: Seq<TreeV>)
    ensures
        forall|m: int|
            0 <= m < uniq(s).len() ==> exists|j: int|
                0 <= j < s.len() && s[j] == #[trigger] uniq(s)[m] && !key_seen(s, j, dedup_key(s[j])),
    decreases s.len(),
{
    if s.len() > 0 {
        let p = s.drop_last();
        lemma_uniq_first(p);
        let u = uniq(s);
        assert forall|m: int| 0 <= m < u.len() implies exists|j: int|
            0 <= j < s.len() && s[j] == #[trigger] u[m] && !key_seen(s, j, dedup_key(s[j])) by {
            if m < uniq(p).len() {
                assert(u[m] == uniq(p)[m]);
                let j = choose|j: int|
                    0 <= j < p.len() && p[j] == #[trigger] uniq(p)[m] && !key_seen(
                        p,
                        j,
                        dedup_key(p[j]),
                    );
                lemma_key_seen_prefix(s, p, j, dedup_key(p[j]));
                assert(s[j] == p[j]);
            } else {
                let j = s.len() - 1;
                assert(u[m] == s[j]);
            }
        }
    }
}

/// What a merged mapping holds under key `k`: the merge of both sides' values
/// when both have `k`, else the one side's value.
pub open spec fn merged_at(
    ea: Seq<(Seq<char>, TreeV)>,
    eb: Seq<(Seq<char>, TreeV)>,
    path: Seq<char>,
    k: Seq<char>,
) -> Option<TreeV> {
    match (find_key(ea, k), find_key(eb, k)) {
        (Some(x), Some(y)) => Some(merge_spec(x, y, child_path(path, k)).0),
        (Some(x), None) => Some(x),
        (None, Some(y)) => Some(y),
        (None, None) => None,
    }
}

proof fn lemma_sorted_tail(es: Seq<(Seq<char>, TreeV)>)
    requires
        keys_sorted(es),
        es.len() > 0,
    ensures
        keys_sorted(es.drop_first()),
        forall|i: int| 0 < i < es.len() ==> key_lt(es[0].0, #[trigger] es[i].0),
{
    let t = es.drop_first();
    assert forall|i: int, j: int| 0 <= i < j < t.len() implies key_lt(#[trigger] t[i].0, #[trigger] t[j].0) by {
        assert(t[i] == es[i + 1] && t[j] == es[j + 1]);
    }
}

proof fn lemma_below_absent(es: Seq<(Seq<char>, TreeV)>, k: Seq<char>)
    requires
        keys_sorted(es),
        es.len() > 0,
        key_lt(k, es[0].0),
    ensures
        find_key(es, k) is None,
    decreases es.len(),
{
    lemma_key_lt_irrefl(k);
    lemma_sorted_tail(es);
    let t = es.drop_first();
    if t.len() > 0 {
        lemma_key_lt_trans(k, es[0].0, es[1].0);
        assert(t[0] == es[1]);
        lemma_below_absent(t, k);
    }
}

proof fn lemma_walk_per_key(
    ea: Seq<(Seq<char>, TreeV)>,
    eb: Seq<(Seq<char>, TreeV)>,
    path: Seq<char>,
    k: Seq<char>,
)
    requires
        keys_sorted(ea),
        keys_sorted(eb),
    ensures
        find_key(walk(ea, eb, path).0, k) == merged_at(ea, eb, path, k),
    decreases ea.len() + eb.len(),
{
    if ea.len() > 0 && eb.len() > 0 {
        lemma_sorted_tail(ea);
        lemma_sorted_tail(eb);
        let ha = ea[0].0;
        let hb = eb[0].0;
        if ha == hb {
            let m = merge_spec(ea[0].1, eb[0].1, child_path(path, ha));
            let rest = walk(ea.drop_first(), eb.drop_first(), path);
            assert((seq![(ha, m.0)] + rest.0)[0] == (ha, m.0));
            assert((seq![(ha, m.0)] + rest.0).drop_first() =~= rest.0);
            if k != ha {
                lemma_walk_per_key(ea.drop_first(), eb.drop_first(), path, k);
            }
        } else if key_lt(ha, hb) {
            let rest = walk(ea.drop_first(), eb, path);
            assert((seq![ea[0]] + rest.0)[0] == ea[0]);
            assert((seq![ea[0]] + rest.0).drop_first() =~= rest.0);
            if k == ha {
                lemma_below_absent(eb, k);
            } else {
                lemma_walk_per_key(ea.drop_first(), eb, path, k);
            }
        } else {
            lemma_key_lt_total(ha, hb);
            let rest = walk(ea, eb.drop_first(), path);
            assert((seq![eb[0]] + rest.0)[0] == eb[0]);
            assert((seq![eb[0]] + rest.0).drop_first() =~= rest.0);
            if k == hb {
                lemma_below_absent(ea, k);
            } else {
                lemma_walk_per_key(ea, eb.drop_first(), path, k);
            }
        }
    }
}

proof fn lemma_put_key_find(es: Seq<(Seq<char>, TreeV)>, n: Seq<char>, v: TreeV, k: Seq<char>)
    ensures
        find_key(put_key(es, n, v), k) == (if k == n {
            Some(v)
        } else {
            find_key(es, k)
        }),
    decreases es.len(),
{
    let r = put_key(es, n, v);
    assert(r.len() > 0);
    if es.len() == 0 {
        assert(r =~= seq![(n, v)]);
        assert(r.drop_first() =~= Seq::<(Seq<char>, TreeV)>::empty());
        assert(find_key(r.drop_first(), k) is None);
    } else if es[0].0 == n {
        assert(r =~= seq![(n, v)] + es.drop_first());
        assert(r.drop_first() =~= es.drop_first());
    } else if key_lt(n, es[0].0) {
        assert(r =~= seq![(n, v)] + es);
        assert(r.drop_first() =~= es);
    } else {
        lemma_put_key_find(es.drop_first(), n, v, k);
        assert(r =~= seq![es[0]] + put_key(es.drop_first(), n, v));
        assert(r.drop_first() =~= put_key(es.drop_first(), n, v));
    }
    assert(find_key(r, k) == (if r[0].0 == k {
        Some(r[0].1)
    } else {
        find_key(r.drop_first(), k)
    }));
}

/// Merging two mappings whose keys ascend merges key by key: every key other
/// than `notes` holds the merge of both values when both sides have it, and
/// the one side's value otherwise. When merges under shared keys left notes,
/// `notes` holds the existing notes text followed by those notes.
pub proof fn lemma_merge_per_key(
    ea: Seq<(Seq<char>, TreeV)>,
    eb: Seq<(Seq<char>, TreeV)>,
    path: Seq<char>,
    k: Seq<char>,
)
    requires
        keys_sorted(ea),
        keys_sorted(eb),
    ensures
        merge_spec(TreeV::Obj(ea), TreeV::Obj(eb), path).0 is Obj,
        merge_spec(TreeV::Obj(ea), TreeV::Obj(eb), path).1.len() == 0,
        k != "notes"@ ==> find_key(merge_spec(TreeV::Obj(ea), TreeV::Obj(eb), path).0->Obj_0, k)
            == merged_at(ea, eb, path, k),
        walk(ea, eb, path).1.len() == 0 ==> find_key(
            merge_spec(TreeV::Obj(ea), TreeV::Obj(eb), path).0->Obj_0,
            "notes"@,
        ) == merged_at(ea, eb, path, "notes"@),
        walk(ea, eb, path).1.len() > 0 ==> find_key(
            merge_spec(TreeV::Obj(ea), TreeV::Obj(eb), path).0->Obj_0,
            "notes"@,
        ) == Some(TreeV::Str(notes_text(merged_at(ea, eb, path, "notes"@), walk(ea, eb, path).1))),
{
    let w = walk(ea, eb, path);
    lemma_walk_per_key(ea, eb, path, k);
    lemma_walk_per_key(ea, eb, path, "notes"@);
    if w.1.len() > 0 {
        let v = TreeV::Str(notes_text(find_key(w.0, "notes"@), w.1));
        lemma_put_key_find(w.0, "notes"@, v, k);
        lemma_put_key_find(w.0, "notes"@, v, "notes"@);
    }
}

/// The dedup key of `e` is carried by some element kept from `s`.
pub open spec fn key_kept(s: Seq<TreeV>, e: TreeV) -> bool {
    exists|m: int| 0 <= m < uniq(s).len() && dedup_key(#[trigger] uniq(s)[m]) == dedup_key(e)
}

/// Merging two sequences keeps each element whose dedup key was not seen
/// before it, scanning `a` then `b`: every key of either appears, and appears
/// once, carried by its first occurrence.
pub proof fn lemma_merge_sequences(xa: Seq<TreeV>, xb: Seq<TreeV>, path: Seq<char>)
    ensures
        merge_spec(TreeV::Arr(xa), TreeV::Arr(xb), path).0 == TreeV::Arr(uniq(xa + xb)),
        forall|j: int|
            0 <= j < (xa + xb).len() ==> key_kept(xa + xb, #[trigger] (xa + xb)[j]),
        forall|m1: int, m2: int|
            0 <= m1 < m2 < uniq(xa + xb).len() ==> dedup_key(#[trigger] uniq(xa + xb)[m1])
                != dedup_key(#[trigger] uniq(xa + xb)[m2]),
        forall|m: int|
            0 <= m < uniq(xa + xb).len() ==> exists|j: int|
                0 <= j < (xa + xb).len() && (xa + xb)[j] == #[trigger] uniq(xa + xb)[m]
                    && !key_seen(xa + xb, j, dedup_key((xa + xb)[j])),
{
    let s = xa + xb;
    assert forall|j: int| 0 <= j < s.len() implies key_kept(s, #[trigger] s[j]) by {
        lemma_uniq_keys(s, dedup_key(s[j]));
        assert(key_seen(s, s.len() as int, dedup_key(s[j])));
    }
    lemma_uniq_distinct(s);
    lemma_uniq_first(s);
}

} // verus!
