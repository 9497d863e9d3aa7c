use base64::Engine;
use vstd::prelude::*;

use crate::classify::{first_tier, infer_level_from_path};
use crate::json::{compact_text, to_compact};
use crate::merge::find_key;
use crate::models::{
    collapsed_lower, ExamplePair, Lesson, LessonStep, LessonStepExamples, Level, Vocabulary,
    level_named,
};
use crate::records::opt_text;
use crate::text::{
    chars_of, is_blank, push_all, same_chars, string_of, strings_view, trim_chars, trim_of,
    upper_of,
};
use crate::tree::{Tree, TreeV, entries_view, lemma_arr_view, lemma_obj_view, trees_view};

verus! {

/// The text held by a value, if it is a string.
pub open spec fn str_of(v: Option<TreeV>) -> Option<Seq<char>> {
    match v {
        Some(TreeV::Str(s)) => Some(s),
        _ => None,
    }
}

/// The text stored under key `k`, if it is a string.
pub open spec fn field(es: Seq<(Seq<char>, TreeV)>, k: Seq<char>) -> Option<Seq<char>> {
    str_of(find_key(es, k))
}

/// The index of the first entry under `key`.
pub fn find_entry(es: &Vec<(Vec<char>, Tree)>, key: &str) -> (r: Option<usize>)
    ensures
        match r {
            Some(i) => i < es@.len() && find_key(entries_view(es@), key@) == Some(
                entries_view(es@)[i as int].1,
            ),
            None => find_key(entries_view(es@), key@) is None,
        },
{
    let ghost ev = entries_view(es@);
    let k = chars_of(key);
    let mut i: usize = 0;
    assert(ev.skip(0) =~= ev);
    while i < es.len()
        invariant
            ev == entries_view(es@),
            k@ == key@,
            i <= es@.len(),
            find_key(ev, key@) == find_key(ev.skip(i as int), key@),
        decreases es@.len() - i,
    {
        assert(ev.skip(i as int)[0] == ev[i as int]);
        if same_chars(&es[i].0, &k) {
            return Some(i);
        }
        assert(ev.skip(i as int).drop_first() =~= ev.skip(i + 1));
        i = i + 1;
    }
    None
}

/// The text stored under `key`, if it is a string.
pub fn field_text(es: &Vec<(Vec<char>, Tree)>, key: &str) -> (r: Option<String>)
    ensures
        opt_text(r) == field(entries_view(es@), key@),
{
    match find_entry(es, key) {
        Some(i) => match &es[i].1 {
            Tree::Str(s) => Some(string_of(s)),
            _ => None,
        },
        None => None,
    }
}

/// The pieces of `s` between occurrences of `c`.
pub open spec fn split_on(s: Seq<char>, c: char) -> Seq<Seq<char>>
    decreases s.len(),
{
    if s.len() == 0 {
        seq![seq![]]
    } else {
        let p = split_on(s.drop_last(), c);
        if s.last() == c {
            p.push(seq![])
        } else {
            p.update(p.len() - 1, p.last().push(s.last()))
        }
    }
}

proof fn lemma_split_nonempty(s: Seq<char>, c: char)
    ensures
        split_on(s, c).len() >= 1,
    decreases s.len(),
{
    if s.len() > 0 {
        lemma_split_nonempty(s.drop_last(), c);
    }
}

/// Splits a run of characters at each `c`.
pub fn split_chars(s: &Vec<char>, c: char) -> (r: Vec<Vec<char>>)
    ensures
        crate::merge::texts_view(r@) == split_on(s@, c),
{
    let mut done: Vec<Vec<char>> = Vec::new();
    let mut cur: Vec<char> = Vec::new();
    let mut i: usize = 0;
    assert(s@.take(0) =~= Seq::<char>::empty());
    assert(crate::merge::texts_view(done@).push(cur@) =~= split_on(s@.take(0), c));
    while i < s.len()
        invariant
            i <= s@.len(),
            crate::merge::texts_view(done@).push(cur@) == split_on(s@.take(i as int), c),
        decreases s@.len() - i,
    {
        assert(s@.take(i + 1).drop_last() =~= s@.take(i as int));
        let ghost before = crate::merge::texts_view(done@).push(cur@);
        if s[i] == c {
            done.push(cur);
            cur = Vec::new();
            assert(crate::merge::texts_view(done@).push(cur@) =~= before.push(seq![]));
        } else {
            cur.push(s[i]);
            assert(crate::merge::texts_view(done@).push(cur@) =~= before.update(
                before.len() - 1,
                before.last().push(s@[i as int]),
            ));
        }
        i = i + 1;
    }
    assert(s@.take(s@.len() as int) =~= s@);
    done.push(cur);
    done
}

/// The trimmed pieces that are not empty, in order.
pub open spec fn kept_parts(ps: Seq<Seq<char>>) -> Seq<Seq<char>>
    decreases ps.len(),
{
    if ps.len() == 0 {
        seq![]
    } else if trim_of(ps.last()).len() > 0 {
        kept_parts(ps.drop_last()).push(trim_of(ps.last()))
    } else {
        kept_parts(ps.drop_last())
    }
}

/// The texts among the values, in order.
pub open spec fn str_items(items: Seq<TreeV>) -> Seq<Seq<char>>
    decreases items.len(),
{
    if items.len() == 0 {
        seq![]
    } else {
        match items.last() {
            TreeV::Str(s) => str_items(items.drop_last()).push(s),
            _ => str_items(items.drop_last()),
        }
    }
}

/// The tags a value stands for: the texts of a list, or the non-empty
/// trimmed comma-separated parts of a text.
pub open spec fn tags_of(v: Option<TreeV>) -> Seq<Seq<char>> {
    match v {
        Some(TreeV::Arr(items)) => str_items(items),
        Some(TreeV::Str(s)) => kept_parts(split_on(s, ',')),
        _ => seq![],
    }
}

/// The texts among `items`, collected.
fn texts_among(items: &Vec<Tree>) -> (r: Vec<String>)
    ensures
        strings_view(r@) == str_items(trees_view(items@)),
{
    let ghost iv = trees_view(items@);
    let mut out: Vec<String> = Vec::new();
    let mut i: usize = 0;
    assert(iv.take(0) =~= Seq::<TreeV>::empty());
    assert(strings_view(out@) =~= Seq::<Seq<char>>::empty());
    while i < items.len()
        invariant
            iv == trees_view(items@),
            i <= items@.len(),
            strings_view(out@) == str_items(iv.take(i as int)),
        decreases items@.len() - i,
    {
        assert(iv.take(i + 1).drop_last() =~= iv.take(i as int));
        assert(iv.take(i + 1).last() == items@[i as int]@);
        let ghost before = strings_view(out@);
        match &items[i] {
            Tree::Str(s) => {
                out.push(string_of(s));
                assert(strings_view(out@) =~= before.push(s@));
            },
            _ => {},
        }
        i = i + 1;
    }
    assert(iv.take(items@.len() as int) =~= iv);
    out
}

/// Reads tags from a list of texts or from one comma-separated text.
pub fn normalize_tags(value: Option<&Tree>) -> (r: Vec<String>)
    ensures
        strings_view(r@) == tags_of(match value {
            Some(t) => Some(t@),
            None => None,
        }),
{
    match value {
        Some(Tree::Arr(items)) => {
            proof {
                lemma_arr_view(*items);
            }
            texts_among(items)
        },
        Some(Tree::Str(s)) => {
            let parts = split_chars(s, ',');
            let ghost pv = crate::merge::texts_view(parts@);
            let mut out: Vec<String> = Vec::new();
            let mut i: usize = 0;
            assert(pv.take(0) =~= Seq::<Seq<char>>::empty());
            assert(strings_view(out@) =~= Seq::<Seq<char>>::empty());
            while i < parts.len()
                invariant
                    pv == crate::merge::texts_view(parts@),
                    i <= parts@.len(),
                    strings_view(out@) == kept_parts(pv.take(i as int)),
                decreases parts@.len() - i,
            {
                assert(pv.take(i + 1).drop_last() =~= pv.take(i as int));
                assert(pv.take(i + 1).last() == parts@[i as int]@);
                let t = trim_chars(&parts[i]);
                if t.len() > 0 {
                    let ghost before = strings_view(out@);
                    out.push(string_of(&t));
                    assert(strings_view(out@) =~= before.push(t@));
                }
                i = i + 1;
            }
            assert(pv.take(parts@.len() as int) =~= pv);
            out
        },
        _ => Vec::new(),
    }
}

/// The level named by a value, else the first named in the path, else unset.
pub open spec fn level_from(path: Seq<char>, v: Option<TreeV>) -> Level {
    match str_of(v) {
        Some(s) if level_named(upper_of(trim_of(s))) is Some => level_named(
            upper_of(trim_of(s)),
        ).unwrap(),
        _ => match first_tier(path, 0) {
            Some(l) => l,
            None => Level::UNSET,
        },
    }
}

/// The level of a record: its own `level` text if that names one, else a
/// tier named in its file path, else unset.
pub fn normalize_level(path: &str, value: Option<&Tree>) -> (r: Level)
    ensures
        r == level_from(path@, match value {
            Some(t) => Some(t@),
            None => None,
        }),
{
    match value {
        Some(Tree::Str(s)) => {
            let text = string_of(s);
            match Level::parse(text.as_str()) {
                Some(l) => {
                    return l;
                },
                None => {},
            }
        },
        _ => {},
    }
    match infer_level_from_path(path) {
        Some(l) => l,
        None => Level::UNSET,
    }
}

} // verus!

verus! {

/// The model of an example pair: its Spanish and English texts.
pub open spec fn pairs_view(v: Seq<ExamplePair>) -> Seq<(Seq<char>, Seq<char>)> {
    Seq::new(v.len(), |i: int| (v[i].es@, v[i].en@))
}

/// The dedup key of a pair of texts.
pub open spec fn pkey(p: (Seq<char>, Seq<char>)) -> (Seq<char>, Seq<char>) {
    (collapsed_lower(p.0), collapsed_lower(p.1))
}

/// Some pair of `acc` has the key of `p`.
pub open spec fn key_in(acc: Seq<(Seq<char>, Seq<char>)>, p: (Seq<char>, Seq<char>)) -> bool {
    exists|m: int| 0 <= m < acc.len() && pkey(#[trigger] acc[m]) == pkey(p)
}

/// The example a value holds: an object with `es` and `en` texts, a list of
/// two texts, or a text with one `|` between the two sides.
pub open spec fn example_of(v: TreeV) -> Result<Option<(Seq<char>, Seq<char>)>, Seq<char>> {
    match v {
        TreeV::Obj(es) => match field(es, "es"@) {
            None => Err("example es missing"@),
            Some(a) => match field(es, "en"@) {
                None => Err("example en missing"@),
                Some(b) => Ok(Some((a, b))),
            },
        },
        TreeV::Arr(items) => if items.len() == 2 && items[0] is Str && items[1] is Str {
            Ok(Some((items[0]->Str_0, items[1]->Str_0)))
        } else {
            Ok(None)
        },
        TreeV::Str(line) => {
            let ps = split_on(line, '|');
            if ps.len() == 2 {
                Ok(Some((trim_of(ps[0]), trim_of(ps[1]))))
            } else {
                Ok(None)
            }
        },
        _ => Ok(None),
    }
}

/// The examples of a list, first error first, repeated keys dropped.
pub open spec fn pairs_fold(items: Seq<TreeV>) -> Result<Seq<(Seq<char>, Seq<char>)>, Seq<char>>
    decreases items.len(),
{
    if items.len() == 0 {
        Ok(seq![])
    } else {
        match pairs_fold(items.drop_last()) {
            Err(e) => Err(e),
            Ok(acc) => match example_of(items.last()) {
                Err(e) => Err(e),
                Ok(None) => Ok(acc),
                Ok(Some(p)) => if key_in(acc, p) {
                    Ok(acc)
                } else {
                    Ok(acc.push(p))
                },
            },
        }
    }
}

/// The examples of an object mapping Spanish texts to English ones.
pub open spec fn obj_pairs(es: Seq<(Seq<char>, TreeV)>) -> Seq<(Seq<char>, Seq<char>)>
    decreases es.len(),
{
    if es.len() == 0 {
        seq![]
    } else {
        let acc = obj_pairs(es.drop_last());
        match es.last().1 {
            TreeV::Str(s) => if key_in(acc, (es.last().0, s)) {
                acc
            } else {
                acc.push((es.last().0, s))
            },
            _ => acc,
        }
    }
}

/// The examples a record's `examples` value stands for, or why there are none.
pub open spec fn examples_of(v: Option<TreeV>) -> Result<Seq<(Seq<char>, Seq<char>)>, Seq<char>> {
    match v {
        Some(TreeV::Arr(items)) => match pairs_fold(items) {
            Err(e) => Err(e),
            Ok(ps) => if ps.len() == 0 {
                Err("no valid examples"@)
            } else {
                Ok(ps)
            },
        },
        Some(TreeV::Obj(es)) => if obj_pairs(es).len() == 0 {
            Err("examples object empty"@)
        } else {
            Ok(obj_pairs(es))
        },
        Some(TreeV::Str(line)) => if split_on(line, '|').len() == 2 {
            Ok(seq![(trim_of(split_on(line, '|')[0]), trim_of(split_on(line, '|')[1]))])
        } else {
            Err("examples string invalid"@)
        },
        None => Err("examples missing"@),
        Some(other) => Err("examples invalid: "@ + compact_text(other)),
    }
}

/// The model of an optional example pair.
pub open spec fn opt_pair(r: Option<ExamplePair>) -> Option<(Seq<char>, Seq<char>)> {
    match r {
        Some(p) => Some((p.es@, p.en@)),
        None => None,
    }
}

/// Reads one example from a value.
pub fn extract_example(value: &Tree) -> (r: Result<Option<ExamplePair>, String>)
    ensures
        match r {
            Ok(p) => example_of(value@) == Ok::<_, Seq<char>>(opt_pair(p)),
            Err(e) => example_of(value@) == Err::<Option<(Seq<char>, Seq<char>)>, _>(e@),
        },
{
    match value {
        Tree::Obj(es) => {
            proof {
                lemma_obj_view(*es);
            }
            let a = match field_text(es, "es") {
                Some(a) => a,
                None => {
                    return Err("example es missing".to_owned());
                },
            };
            let b = match field_text(es, "en") {
                Some(b) => b,
                None => {
                    return Err("example en missing".to_owned());
                },
            };
            Ok(Some(ExamplePair { es: a, en: b }))
        },
        Tree::Arr(items) => {
            proof {
                lemma_arr_view(*items);
            }
            if items.len() == 2 {
                match (&items[0], &items[1]) {
                    (Tree::Str(a), Tree::Str(b)) => {
                        return Ok(Some(ExamplePair { es: string_of(a), en: string_of(b) }));
                    },
                    _ => {},
                }
            }
            Ok(None)
        },
        Tree::Str(line) => {
            let ps = split_chars(line, '|');
            if ps.len() == 2 {
                let a = trim_chars(&ps[0]);
                let b = trim_chars(&ps[1]);
                Ok(Some(ExamplePair { es: string_of(&a), en: string_of(&b) }))
            } else {
                Ok(None)
            }
        },
        _ => Ok(None),
    }
}

/// Appends `p` unless a pair with its key is already in `out`.
fn push_new_pair(out: &mut Vec<ExamplePair>, keys: &mut Vec<(String, String)>, p: ExamplePair)
    requires
        old(keys)@.len() == old(out)@.len(),
        forall|m: int|
            0 <= m < old(keys)@.len() ==> ((#[trigger] old(keys)@[m]).0@, old(keys)@[m].1@)
                == pkey(pairs_view(old(out)@)[m]),
    ensures
        pairs_view(final(out)@) == (if key_in(pairs_view(old(out)@), (p.es@, p.en@)) {
            pairs_view(old(out)@)
        } else {
            pairs_view(old(out)@).push((p.es@, p.en@))
        }),
        final(keys)@.len() == final(out)@.len(),
        forall|m: int|
            0 <= m < final(keys)@.len() ==> ((#[trigger] final(keys)@[m]).0@, final(keys)@[m].1@)
                == pkey(pairs_view(final(out)@)[m]),
{
    let ghost pv = pairs_view(out@);
    let ghost pm = (p.es@, p.en@);
    let key = p.normalize_key();
    let mut m: usize = 0;
    while m < keys.len()
        invariant
            m <= keys@.len(),
            keys@.len() == out@.len(),
            pv == pairs_view(out@),
            forall|q: int| 0 <= q < keys@.len() ==> ((#[trigger] keys@[q]).0@, keys@[q].1@) == pkey(pv[q]),
            forall|q: int| 0 <= q < m ==> pkey(#[trigger] pv[q]) != pkey(pm),
            (key.0@, key.1@) == pkey(pm),
            pm == (p.es@, p.en@),
            out@ == old(out)@,
            keys@ == old(keys)@,
        decreases keys@.len() - m,
    {
        if keys[m].0 == key.0 && keys[m].1 == key.1 {
            assert(pkey(pv[m as int]) == pkey(pm));
            assert(key_in(pv, pm));
            return;
        }
        m = m + 1;
    }
    assert(!key_in(pv, pm));
    out.push(p);
    keys.push(key);
    assert(pairs_view(out@) =~= pv.push(pm));
}

/// Reads the examples of a record.
pub fn normalize_examples(value: Option<&Tree>) -> (r: Result<Vec<ExamplePair>, String>)
    ensures
        match r {
            Ok(ps) => examples_of(match value {
                Some(t) => Some(t@),
                None => None,
            }) == Ok::<_, Seq<char>>(pairs_view(ps@)),
            Err(e) => examples_of(match value {
                Some(t) => Some(t@),
                None => None,
            }) == Err::<Seq<(Seq<char>, Seq<char>)>, _>(e@),
        },
{
    match value {
        Some(Tree::Arr(items)) => {
            proof {
                lemma_arr_view(*items);
            }
            let ghost iv = trees_view(items@);
            let mut out: Vec<ExamplePair> = Vec::new();
            let mut keys: Vec<(String, String)> = Vec::new();
            let mut i: usize = 0;
            assert(iv.take(0) =~= Seq::<TreeV>::empty());
            assert(pairs_view(out@) =~= Seq::<(Seq<char>, Seq<char>)>::empty());
            while i < items.len()
                invariant
                    iv == trees_view(items@),
                    value == Some(&Tree::Arr(*items)),
                    Tree::Arr(*items)@ == TreeV::Arr(iv),
                    i <= items@.len(),
                    pairs_fold(iv.take(i as int)) == Ok::<_, Seq<char>>(pairs_view(out@)),
                    keys@.len() == out@.len(),
                    forall|m: int|
                        0 <= m < keys@.len() ==> ((#[trigger] keys@[m]).0@, keys@[m].1@) == pkey(
                            pairs_view(out@)[m],
                        ),
                decreases items@.len() - i,
            {
                assert(iv.take(i + 1).drop_last() =~= iv.take(i as int));
                assert(iv.take(i + 1).last() == items@[i as int]@);
                match extract_example(&items[i]) {
                    Err(e) => {
                        assert(pairs_fold(iv.take(i + 1)) == Err::<Seq<(Seq<char>, Seq<char>)>, _>(
                            e@,
                        ));
                        proof {
                            lemma_fold_error_sticks(iv, i as int + 1, e@);
                        }
                        assert(iv.take(items@.len() as int) =~= iv);
                        return Err(e);
                    },
                    Ok(None) => {},
                    Ok(Some(p)) => {
                        push_new_pair(&mut out, &mut keys, p);
                    },
                }
                i = i + 1;
            }
            assert(iv.take(items@.len() as int) =~= iv);
            if out.len() == 0 {
                Err("no valid examples".to_owned())
            } else {
                Ok(out)
            }
        },
        Some(Tree::Obj(es)) => {
            proof {
                lemma_obj_view(*es);
            }
            let ghost ev = entries_view(es@);
            let mut out: Vec<ExamplePair> = Vec::new();
            let mut keys: Vec<(String, String)> = Vec::new();
            let mut i: usize = 0;
            assert(ev.take(0) =~= Seq::<(Seq<char>, TreeV)>::empty());
            assert(pairs_view(out@) =~= Seq::<(Seq<char>, Seq<char>)>::empty());
            while i < es.len()
                invariant
                    ev == entries_view(es@),
                    value == Some(&Tree::Obj(*es)),
                    Tree::Obj(*es)@ == TreeV::Obj(ev),
                    i <= es@.len(),
                    obj_pairs(ev.take(i as int)) == pairs_view(out@),
                    keys@.len() == out@.len(),
                    forall|m: int|
                        0 <= m < keys@.len() ==> ((#[trigger] keys@[m]).0@, keys@[m].1@) == pkey(
                            pairs_view(out@)[m],
                        ),
                decreases es@.len() - i,
            {
                assert(ev.take(i + 1).drop_last() =~= ev.take(i as int));
                assert(ev.take(i + 1).last() == ev[i as int]);
                match &es[i].1 {
                    Tree::Str(s) => {
                        let p = ExamplePair { es: string_of(&es[i].0), en: string_of(s) };
                        push_new_pair(&mut out, &mut keys, p);
                    },
                    _ => {},
                }
                i = i + 1;
            }
            assert(ev.take(es@.len() as int) =~= ev);
            if out.len() == 0 {
                Err("examples object empty".to_owned())
            } else {
                Ok(out)
            }
        },
        Some(Tree::Str(line)) => {
            let ps = split_chars(line, '|');
            if ps.len() == 2 {
                let a = trim_chars(&ps[0]);
                let b = trim_chars(&ps[1]);
                let out = vec![ExamplePair { es: string_of(&a), en: string_of(&b) }];
                assert(pairs_view(out@) =~= seq![(a@, b@)]);
                Ok(out)
            } else {
                Err("examples string invalid".to_owned())
            }
        },
        None => Err("examples missing".to_owned()),
        Some(other) => {
            let c = to_compact(other);
            let mut msg = chars_of("examples invalid: ");
            push_all(&mut msg, &c);
            Err(string_of(&msg))
        },
    }
}

proof fn lemma_fold_error_sticks(items: Seq<TreeV>, n: int, e: Seq<char>)
    requires
        0 < n <= items.len(),
        pairs_fold(items.take(n)) == Err::<Seq<(Seq<char>, Seq<char>)>, _>(e),
    ensures
        pairs_fold(items) == Err::<Seq<(Seq<char>, Seq<char>)>, _>(e),
    decreases items.len() - n,
{
    if n < items.len() {
        assert(items.take(n + 1).drop_last() =~= items.take(n));
        lemma_fold_error_sticks(items, n + 1, e);
    } else {
        assert(items.take(n) =~= items);
    }
}

} // verus!

verus! {

/// The model of a lesson step.
pub enum StepV {
    Anchor(Seq<char>),
    Logic(Seq<char>),
    Depth(Option<Seq<char>>, Option<Seq<char>>),
    Entry(Seq<char>),
    Examples(Seq<Seq<char>>),
}

pub open spec fn step_view(s: LessonStep) -> StepV {
    match s {
        LessonStep::EnglishAnchor { line } => StepV::Anchor(line@),
        LessonStep::SystemLogic { line } => StepV::Logic(line@),
        LessonStep::MeaningDepth { origin, story } => StepV::Depth(opt_text(origin), opt_text(story)),
        LessonStep::SpanishEntry { line } => StepV::Entry(line@),
        LessonStep::Examples(e) => StepV::Examples(strings_view(e.items@)),
    }
}

pub open spec fn steps_view(v: Seq<LessonStep>) -> Seq<StepV> {
    Seq::new(v.len(), |i: int| step_view(v[i]))
}

/// The line of a step that requires one.
pub open spec fn required_line(es: Seq<(Seq<char>, TreeV)>, missing: Seq<char>) -> Result<Seq<char>, Seq<char>> {
    match field(es, "line"@) {
        Some(l) => Ok(l),
        None => Err(missing),
    }
}

/// The step a value describes: an object tagged by its `phase` (an anchor
/// line when untagged or unknown), or a bare text as an anchor line.
pub open spec fn step_of(v: TreeV) -> Result<StepV, Seq<char>> {
    match v {
        TreeV::Obj(es) => {
            let phase = match field(es, "phase"@) {
                Some(p) => p,
                None => "english_anchor"@,
            };
            if phase == "english_anchor"@ {
                match required_line(es, "english_anchor requires line"@) {
                    Ok(l) => Ok(StepV::Anchor(l)),
                    Err(e) => Err(e),
                }
            } else if phase == "system_logic"@ {
                match required_line(es, "system_logic requires line"@) {
                    Ok(l) => Ok(StepV::Logic(l)),
                    Err(e) => Err(e),
                }
            } else if phase == "meaning_depth"@ {
                Ok(StepV::Depth(field(es, "origin"@), field(es, "story"@)))
            } else if phase == "spanish_entry"@ {
                match required_line(es, "spanish_entry requires line"@) {
                    Ok(l) => Ok(StepV::Entry(l)),
                    Err(e) => Err(e),
                }
            } else if phase == "examples"@ {
                match find_key(es, "items"@) {
                    None => Ok(StepV::Examples(seq![])),
                    Some(TreeV::Arr(xs)) => Ok(StepV::Examples(str_items(xs))),
                    Some(TreeV::Str(s)) => Ok(StepV::Examples(seq![s])),
                    Some(other) => Err("examples items invalid: "@ + compact_text(other)),
                }
            } else {
                Ok(
                    StepV::Anchor(
                        match field(es, "line"@) {
                            Some(l) => l,
                            None => seq![],
                        },
                    ),
                )
            }
        },
        TreeV::Str(line) => Ok(StepV::Anchor(line)),
        other => Err("unexpected lesson step: "@ + compact_text(other)),
    }
}

fn prefixed(prefix: &str, t: &Tree) -> (r: String)
    ensures
        r@ == prefix@ + compact_text(t@),
{
    let c = to_compact(t);
    let mut msg = chars_of(prefix);
    push_all(&mut msg, &c);
    string_of(&msg)
}

/// Reads one lesson step.
pub fn parse_step(value: &Tree) -> (r: Result<LessonStep, String>)
    ensures
        match r {
            Ok(s) => step_of(value@) == Ok::<_, Seq<char>>(step_view(s)),
            Err(e) => step_of(value@) == Err::<StepV, _>(e@),
        },
{
    match value {
        Tree::Obj(es) => {
            proof {
                lemma_obj_view(*es);
            }
            let phase = match field_text(es, "phase") {
                Some(p) => p,
                None => "english_anchor".to_owned(),
            };
            let ph = phase.as_str();
            let line = field_text(es, "line");
            if crate::text::text_is(ph, "english_anchor") {
                match line {
                    Some(l) => Ok(LessonStep::EnglishAnchor { line: l }),
                    None => Err("english_anchor requires line".to_owned()),
                }
            } else if crate::text::text_is(ph, "system_logic") {
                match line {
                    Some(l) => Ok(LessonStep::SystemLogic { line: l }),
                    None => Err("system_logic requires line".to_owned()),
                }
            } else if crate::text::text_is(ph, "meaning_depth") {
                Ok(
                    LessonStep::MeaningDepth {
                        origin: field_text(es, "origin"),
                        story: field_text(es, "story"),
                    },
                )
            } else if crate::text::text_is(ph, "spanish_entry") {
                match line {
                    Some(l) => Ok(LessonStep::SpanishEntry { line: l }),
                    None => Err("spanish_entry requires line".to_owned()),
                }
            } else if crate::text::text_is(ph, "examples") {
                match find_entry(es, "items") {
                    None => {
                        let items: Vec<String> = Vec::new();
                        assert(strings_view(items@) =~= Seq::<Seq<char>>::empty());
                        Ok(LessonStep::Examples(LessonStepExamples { items }))
                    },
                    Some(k) => match &es[k].1 {
                        Tree::Arr(xs) => {
                            proof {
                                lemma_arr_view(*xs);
                            }
                            Ok(LessonStep::Examples(LessonStepExamples { items: texts_among(xs) }))
                        },
                        Tree::Str(s) => {
                            let items = vec![string_of(s)];
                            assert(strings_view(items@) =~= seq![s@]);
                            Ok(LessonStep::Examples(LessonStepExamples { items }))
                        },
                        other => Err(prefixed("examples items invalid: ", other)),
                    },
                }
            } else {
                match line {
                    Some(l) => Ok(LessonStep::EnglishAnchor { line: l }),
                    None => {
                        let empty = String::new();
                        Ok(LessonStep::EnglishAnchor { line: empty })
                    },
                }
            }
        },
        Tree::Str(line) => Ok(LessonStep::EnglishAnchor { line: string_of(line) }),
        other => Err(prefixed("unexpected lesson step: ", other)),
    }
}

/// The steps of a list, or the first problem.
pub open spec fn steps_fold(items: Seq<TreeV>) -> Result<Seq<StepV>, Seq<char>>
    decreases items.len(),
{
    if items.len() == 0 {
        Ok(seq![])
    } else {
        match steps_fold(items.drop_last()) {
            Err(e) => Err(e),
            Ok(acc) => match step_of(items.last()) {
                Err(e) => Err(e),
                Ok(s) => Ok(acc.push(s)),
            },
        }
    }
}

/// The steps a value describes.
pub open spec fn steps_of(v: TreeV) -> Result<Seq<StepV>, Seq<char>> {
    match v {
        TreeV::Arr(items) => steps_fold(items),
        other => Err("unexpected steps format: "@ + compact_text(other)),
    }
}

proof fn lemma_steps_error_sticks(items: Seq<TreeV>, n: int, e: Seq<char>)
    requires
        0 < n <= items.len(),
        steps_fold(items.take(n)) == Err::<Seq<StepV>, _>(e),
    ensures
        steps_fold(items) == Err::<Seq<StepV>, _>(e),
    decreases items.len() - n,
{
    if n < items.len() {
        assert(items.take(n + 1).drop_last() =~= items.take(n));
        lemma_steps_error_sticks(items, n + 1, e);
    } else {
        assert(items.take(n) =~= items);
    }
}

/// Reads the steps of a lesson.
pub fn normalize_steps(value: &Tree) -> (r: Result<Vec<LessonStep>, String>)
    ensures
        match r {
            Ok(s) => steps_of(value@) == Ok::<_, Seq<char>>(steps_view(s@)),
            Err(e) => steps_of(value@) == Err::<Seq<StepV>, _>(e@),
        },
{
    match value {
        Tree::Arr(items) => {
            proof {
                lemma_arr_view(*items);
            }
            let ghost iv = trees_view(items@);
            let mut steps: Vec<LessonStep> = Vec::new();
            let mut i: usize = 0;
            assert(iv.take(0) =~= Seq::<TreeV>::empty());
            assert(steps_view(steps@) =~= Seq::<StepV>::empty());
            while i < items.len()
                invariant
                    iv == trees_view(items@),
                    *value == Tree::Arr(*items),
                    Tree::Arr(*items)@ == TreeV::Arr(iv),
                    i <= items@.len(),
                    steps_fold(iv.take(i as int)) == Ok::<_, Seq<char>>(steps_view(steps@)),
                decreases items@.len() - i,
            {
                assert(iv.take(i + 1).drop_last() =~= iv.take(i as int));
                assert(iv.take(i + 1).last() == items@[i as int]@);
                match parse_step(&items[i]) {
                    Ok(s) => {
                        let ghost before = steps_view(steps@);
                        steps.push(s);
                        assert(steps_view(steps@) =~= before.push(step_view(s)));
                    },
                    Err(e) => {
                        assert(steps_fold(iv.take(i + 1)) == Err::<Seq<StepV>, _>(e@));
                        proof {
                            lemma_steps_error_sticks(iv, i as int + 1, e@);
                        }
                        return Err(e);
                    },
                }
                i = i + 1;
            }
            assert(iv.take(items@.len() as int) =~= iv);
            Ok(steps)
        },
        other => Err(prefixed("unexpected steps format: ", other)),
    }
}

} // verus!

verus! {

/// The canonical name of a lowercased key, where it has one.
pub open spec fn canonical_name(lower: Seq<char>) -> Option<Seq<char>> {
    if lower == "nikname"@ || lower == "nick_name"@ || lower == "lesson_nickname"@ {
        Some("nickname"@)
    } else if lower == "lessonnum"@ || lower == "lesson_no"@ || lower == "lessonnumber"@ {
        Some("lesson_number"@)
    } else if lower == "unitnum"@ || lower == "unit_no"@ || lower == "unitnumber"@ {
        Some("unit"@)
    } else if lower == "english"@ || lower == "englishgloss"@ || lower == "english_glossary"@ {
        Some("english_gloss"@)
    } else if lower == "def"@ || lower == "definition_en"@ {
        Some("definition"@)
    } else if lower == "origin_story"@ {
        Some("story"@)
    } else if lower == "pos_tag"@ {
        Some("pos"@)
    } else if lower == "tags_csv"@ {
        Some("tags"@)
    } else {
        None
    }
}

fn canonical_of(lower: &str) -> (r: Option<String>)
    ensures
        opt_text(r) == canonical_name(lower@),
{
    let t = |a: &str| -> (b: bool)
        ensures
            b == (lower@ == a@),
        { crate::text::text_is(lower, a) };
    if t("nikname") || t("nick_name") || t("lesson_nickname") {
        Some("nickname".to_owned())
    } else if t("lessonnum") || t("lesson_no") || t("lessonnumber") {
        Some("lesson_number".to_owned())
    } else if t("unitnum") || t("unit_no") || t("unitnumber") {
        Some("unit".to_owned())
    } else if t("english") || t("englishgloss") || t("english_glossary") {
        Some("english_gloss".to_owned())
    } else if t("def") || t("definition_en") {
        Some("definition".to_owned())
    } else if t("origin_story") {
        Some("story".to_owned())
    } else if t("pos_tag") {
        Some("pos".to_owned())
    } else if t("tags_csv") {
        Some("tags".to_owned())
    } else {
        None
    }
}

/// The renames that the entries call for, in entry order.
pub open spec fn renames_of(es: Seq<(Seq<char>, TreeV)>) -> Seq<(Seq<char>, Seq<char>)>
    decreases es.len(),
{
    if es.len() == 0 {
        seq![]
    } else {
        match canonical_name(crate::text::lower_of(es.last().0)) {
            Some(n) => renames_of(es.drop_last()).push((es.last().0, n)),
            None => renames_of(es.drop_last()),
        }
    }
}

/// The entries without the first one under key `k`.
pub open spec fn drop_key(es: Seq<(Seq<char>, TreeV)>, k: Seq<char>) -> Seq<(Seq<char>, TreeV)>
    decreases es.len(),
{
    if es.len() == 0 {
        es
    } else if es[0].0 == k {
        es.drop_first()
    } else {
        seq![es[0]] + drop_key(es.drop_first(), k)
    }
}

/// The entries once each rename has moved its value to the new key.
pub open spec fn apply_renames(es: Seq<(Seq<char>, TreeV)>, rs: Seq<(Seq<char>, Seq<char>)>) -> Seq<
    (Seq<char>, TreeV),
>
    decreases rs.len(),
{
    if rs.len() == 0 {
        es
    } else {
        let e2 = apply_renames(es, rs.drop_last());
        match find_key(e2, rs.last().0) {
            Some(v) => crate::merge::put_key(drop_key(e2, rs.last().0), rs.last().1, v),
            None => e2,
        }
    }
}

proof fn lemma_drop_absent(es: Seq<(Seq<char>, TreeV)>, k: Seq<char>)
    requires
        find_key(es, k) is None,
    ensures
        drop_key(es, k) == es,
    decreases es.len(),
{
    if es.len() > 0 {
        lemma_drop_absent(es.drop_first(), k);
        assert(seq![es[0]] + es.drop_first() =~= es);
    }
}

/// Removes the first entry under `k` and hands back its value.
fn take_entry(es: &mut Vec<(Vec<char>, Tree)>, k: &Vec<char>) -> (r: Option<Tree>)
    ensures
        crate::tree::opt_view(r) == find_key(entries_view(old(es)@), k@),
        entries_view(final(es)@) == drop_key(entries_view(old(es)@), k@),
{
    let ghost ev = entries_view(es@);
    let mut i: usize = 0;
    assert(ev.skip(0) =~= ev);
    assert(ev.take(0) + drop_key(ev.skip(0), k@) =~= drop_key(ev, k@));
    while i < es.len()
        invariant
            ev == entries_view(es@),
            es@ == old(es)@,
            i <= es@.len(),
            find_key(ev, k@) == find_key(ev.skip(i as int), k@),
            drop_key(ev, k@) == ev.take(i as int) + drop_key(ev.skip(i as int), k@),
        decreases es@.len() - i,
    {
        assert(ev.skip(i as int)[0] == ev[i as int]);
        if same_chars(&es[i].0, k) {
            let (_, v) = es.remove(i);
            assert(entries_view(es@) =~= ev.take(i as int) + ev.skip(i as int).drop_first());
            return Some(v);
        }
        assert(ev.skip(i as int).drop_first() =~= ev.skip(i + 1));
        assert(ev.take(i + 1) =~= ev.take(i as int) + seq![ev[i as int]]);
        i = i + 1;
    }
    assert(ev.take(i as int) + ev.skip(i as int) =~= ev);
    None
}

/// Renames known variant spellings of keys to their canonical names.
pub fn canonicalize_keys(es: &mut Vec<(Vec<char>, Tree)>)
    ensures
        entries_view(final(es)@) == apply_renames(
            entries_view(old(es)@),
            renames_of(entries_view(old(es)@)),
        ),
{
    let ghost e0 = entries_view(es@);
    let mut renames: Vec<(Vec<char>, Vec<char>)> = Vec::new();
    let mut i: usize = 0;
    assert(e0.take(0) =~= Seq::<(Seq<char>, TreeV)>::empty());
    while i < es.len()
        invariant
            e0 == entries_view(es@),
            i <= es@.len(),
            renames@.len() == renames_of(e0.take(i as int)).len(),
            forall|m: int|
                0 <= m < renames@.len() ==> ((#[trigger] renames@[m]).0@, renames@[m].1@)
                    == renames_of(e0.take(i as int))[m],
        decreases es@.len() - i,
    {
        assert(e0.take(i + 1).drop_last() =~= e0.take(i as int));
        assert(e0.take(i + 1).last() == e0[i as int]);
        let name = string_of(&es[i].0);
        let lower = crate::text::lowercase(name.as_str());
        match canonical_of(lower.as_str()) {
            Some(n) => {
                renames.push((crate::tree::copy_chars(&es[i].0), chars_of(n.as_str())));
            },
            None => {},
        }
        i = i + 1;
    }
    assert(e0.take(es@.len() as int) =~= e0);
    let ghost rs = renames_of(e0);
    let mut j: usize = 0;
    assert(rs.take(0) =~= Seq::<(Seq<char>, Seq<char>)>::empty());
    while j < renames.len()
        invariant
            rs == renames_of(e0),
            renames@.len() == rs.len(),
            forall|m: int| 0 <= m < renames@.len() ==> ((#[trigger] renames@[m]).0@, renames@[m].1@) == rs[m],
            j <= renames@.len(),
            entries_view(es@) == apply_renames(e0, rs.take(j as int)),
        decreases renames@.len() - j,
    {
        assert(rs.take(j + 1).drop_last() =~= rs.take(j as int));
        assert(rs.take(j + 1).last() == rs[j as int]);
        let ghost e2 = entries_view(es@);
        let ghost r = rs[j as int];
        assert(apply_renames(e0, rs.take(j + 1)) == (match find_key(e2, r.0) {
            Some(v) => crate::merge::put_key(drop_key(e2, r.0), r.1, v),
            None => e2,
        }));
        let old_key = &renames[j].0;
        assert(old_key@ == r.0);
        match take_entry(es, old_key) {
            Some(v) => {
                let new_key = crate::tree::copy_chars(&renames[j].1);
                assert(new_key@ == r.1);
                crate::merge::put_entry(es, new_key, v);
            },
            None => {
                proof {
                    lemma_drop_absent(e2, r.0);
                }
            },
        }
        j = j + 1;
    }
    assert(rs.take(renames@.len() as int) =~= rs);
}

} // verus!

verus! {

/// What `slug::slugify` makes of a text.
pub uninterp spec fn slug_of(s: Seq<char>) -> Seq<char>;

/// What `str::parse::<i64>` reads from a text, if it accepts it.
pub uninterp spec fn i64_of(s: Seq<char>) -> Option<i64>;

/// The digest `blake3::hash` computes of some bytes.
pub uninterp spec fn blake3_of(b: Seq<u8>) -> Seq<u8>;

/// The text that URL-safe unpadded base64 makes of some bytes.
pub uninterp spec fn b64_of(b: Seq<u8>) -> Seq<char>;

/// Relies on `slug::slugify`.
#[verifier::external_body]
fn slugify_text(s: &str) -> (r: String)
    ensures
        r@ == slug_of(s@),
{
    slug::slugify(s)
}

/// Relies on `str::parse::<i64>`.
#[verifier::external_body]
fn parse_i64(s: &str) -> (r: Option<i64>)
    ensures
        r == i64_of(s@),
{
    s.parse::<i64>().ok()
}

/// Relies on `blake3::hash`: the 32 digest bytes.
#[verifier::external_body]
fn blake3_digest(b: &[u8]) -> (r: Vec<u8>)
    ensures
        r@ == blake3_of(b@),
{
    blake3::hash(b).as_bytes().to_vec()
}

/// Relies on base64's `URL_SAFE_NO_PAD` engine and its `encode`.
#[verifier::external_body]
fn b64_url(b: &Vec<u8>) -> (r: String)
    ensures
        r@ == b64_of(b@),
{
    base64::engine::general_purpose::URL_SAFE_NO_PAD.encode(b)
}

/// The sentinel of an unassigned unit or lesson number.
pub open spec fn unassigned() -> u32 {
    9999
}

/// A unit or lesson number: an integer value cut to 32 bits, else the sentinel.
pub open spec fn ordinal_of(v: Option<TreeV>) -> u32 {
    match v {
        Some(TreeV::Num(t)) => match i64_of(t) {
            Some(n) => #[verifier::truncate] (n as u32),
            None => unassigned(),
        },
        _ => unassigned(),
    }
}

fn ordinal_value(v: Option<&Tree>) -> (r: u32)
    ensures
        r == ordinal_of(match v {
            Some(t) => Some(t@),
            None => None,
        }),
{
    match v {
        Some(Tree::Num(t)) => {
            let s = string_of(t);
            match parse_i64(s.as_str()) {
                Some(n) => #[verifier::truncate] (n as u32),
                None => 9999,
            }
        },
        _ => 9999,
    }
}

/// A number written with at least three digits.
pub open spec fn pad3(n: u32) -> Seq<char> {
    if n < 10 {
        "00"@ + crate::audit::numeral(n as nat)
    } else if n < 100 {
        "0"@ + crate::audit::numeral(n as nat)
    } else {
        crate::audit::numeral(n as nat)
    }
}

/// A lesson's nickname: its own when not blank, else the slug of its title.
pub open spec fn nickname_of(es: Seq<(Seq<char>, TreeV)>, title: Seq<char>) -> Seq<char> {
    match field(es, "nickname"@) {
        Some(n) => if !is_blank(n) {
            n
        } else {
            slug_of(title)
        },
        None => slug_of(title),
    }
}

/// A lesson's id: its own, else one made of its unit and the slug of its title.
pub open spec fn lesson_id_of(es: Seq<(Seq<char>, TreeV)>, title: Seq<char>, unit: u32) -> Seq<char> {
    match field(es, "id"@) {
        Some(i) => i,
        None => "mmspanish__grammar_"@ + pad3(unit) + "_"@ + slug_of(title),
    }
}

/// A lesson's notes, else its alternative notes.
pub open spec fn lesson_notes_of(es: Seq<(Seq<char>, TreeV)>) -> Option<Seq<char>> {
    match field(es, "notes"@) {
        Some(n) => Some(n),
        None => field(es, "alt_notes"@),
    }
}

/// The value that holds a lesson's steps.
pub open spec fn steps_value(es: Seq<(Seq<char>, TreeV)>) -> Option<TreeV> {
    match find_key(es, "steps"@) {
        Some(v) => Some(v),
        None => find_key(es, "phases"@),
    }
}

/// Why no lesson can be built from the entries, if none can.
pub open spec fn lesson_build_error(es: Seq<(Seq<char>, TreeV)>) -> Option<Seq<char>> {
    if field(es, "title"@) is None {
        Some("lesson title missing"@)
    } else {
        match steps_value(es) {
            None => Some("lesson steps missing"@),
            Some(sv) => match steps_of(sv) {
                Err(e) => Some(e),
                Ok(_) => None,
            },
        }
    }
}

fn entry_ref<'a>(es: &'a Vec<(Vec<char>, Tree)>, key: &str) -> (r: Option<&'a Tree>)
    ensures
        match r {
            Some(t) => find_key(entries_view(es@), key@) == Some(t@),
            None => find_key(entries_view(es@), key@) is None,
        },
{
    match find_entry(es, key) {
        Some(i) => Some(&es[i].1),
        None => None,
    }
}

/// Builds a lesson from the entries of a classified object. `source` is the
/// file it came from; `level_path` is searched for a tier when the entries
/// name none.
pub fn build_lesson(source: &str, level_path: &str, es: &Vec<(Vec<char>, Tree)>) -> (r: Result<Lesson, String>)
    ensures
        match r {
            Err(e) => lesson_build_error(entries_view(es@)) == Some(e@),
            Ok(l) => {
                let ev = entries_view(es@);
                &&& lesson_build_error(ev) is None
                &&& Some(l.title@) == field(ev, "title"@)
                &&& l.nickname@ == nickname_of(ev, l.title@)
                &&& l.level == level_from(level_path@, find_key(ev, "level"@))
                &&& l.unit == ordinal_of(find_key(ev, "unit"@))
                &&& l.lesson_number == ordinal_of(find_key(ev, "lesson_number"@))
                &&& strings_view(l.tags@) == tags_of(find_key(ev, "tags"@))
                &&& steps_of(steps_value(ev).unwrap()) == Ok::<_, Seq<char>>(steps_view(l.steps@))
                &&& opt_text(l.notes) == lesson_notes_of(ev)
                &&& l.id@ == lesson_id_of(ev, l.title@, l.unit)
                &&& strings_view(l.source_files@) == seq![source@]
            },
        },
{
    let title = match field_text(es, "title") {
        Some(t) => t,
        None => {
            return Err("lesson title missing".to_owned());
        },
    };
    let nickname = match field_text(es, "nickname") {
        Some(n) => if !crate::text::blank(n.as_str()) {
            n
        } else {
            slugify_text(title.as_str())
        },
        None => slugify_text(title.as_str()),
    };
    let level = normalize_level(level_path, entry_ref(es, "level"));
    let unit = ordinal_value(entry_ref(es, "unit"));
    let lesson_number = ordinal_value(entry_ref(es, "lesson_number"));
    let tags = normalize_tags(entry_ref(es, "tags"));
    let steps_tree = match entry_ref(es, "steps") {
        Some(t) => t,
        None => match entry_ref(es, "phases") {
            Some(t) => t,
            None => {
                return Err("lesson steps missing".to_owned());
            },
        },
    };
    let steps = match normalize_steps(steps_tree) {
        Ok(s) => s,
        Err(e) => {
            return Err(e);
        },
    };
    let notes = match field_text(es, "notes") {
        Some(n) => Some(n),
        None => field_text(es, "alt_notes"),
    };
    let id = match field_text(es, "id") {
        Some(i) => i,
        None => {
            let mut v = chars_of("mmspanish__grammar_");
            if unit < 10 {
                let z = chars_of("00");
                push_all(&mut v, &z);
            } else if unit < 100 {
                let z = chars_of("0");
                push_all(&mut v, &z);
            }
            crate::audit::push_numeral(&mut v, unit as usize);
            let sep = chars_of("_");
            push_all(&mut v, &sep);
            let slug = slugify_text(title.as_str());
            let sc = chars_of(slug.as_str());
            push_all(&mut v, &sc);
            string_of(&v)
        },
    };
    let source_files = vec![source.to_owned()];
    assert(strings_view(source_files@) =~= seq![source@]);
    Ok(
        Lesson {
            id,
            title,
            nickname,
            level,
            unit,
            lesson_number,
            tags,
            steps,
            notes,
            source_files,
        },
    )
}

} // verus!

verus! {

/// The trimmed text stored under `k`, if it is a string.
pub open spec fn trimmed_field(es: Seq<(Seq<char>, TreeV)>, k: Seq<char>) -> Option<Seq<char>> {
    match field(es, k) {
        Some(s) => Some(trim_of(s)),
        None => None,
    }
}

/// The canonical gender an entry names, if any.
pub open spec fn gender_of(es: Seq<(Seq<char>, TreeV)>) -> Option<Seq<char>> {
    match field(es, "gender"@) {
        Some(g) => crate::classify::gender_named(crate::text::lower_of(g)),
        None => None,
    }
}

/// Why no vocabulary entry can be built from the entries, if none can.
pub open spec fn vocab_build_error(es: Seq<(Seq<char>, TreeV)>) -> Option<Seq<char>> {
    if field(es, "spanish"@) is None {
        Some("spanish missing"@)
    } else if field(es, "pos"@) is None {
        Some("pos missing"@)
    } else if field(es, "english_gloss"@) is None {
        Some("english_gloss missing"@)
    } else if field(es, "definition"@) is None {
        Some("definition missing"@)
    } else {
        match examples_of(find_key(es, "examples"@)) {
            Err(e) => Some(e),
            Ok(_) => None,
        }
    }
}

/// The text whose digest names an entry that has no id of its own.
pub open spec fn vocab_digest_key(spanish: Seq<char>, pos: Seq<char>, gender: Option<Seq<char>>) -> Seq<
    char,
> {
    crate::text::lower_of(spanish) + "|"@ + crate::text::lower_of(pos) + "|"@ + match gender {
        Some(g) => g,
        None => "null"@,
    }
}

/// An entry's id: its own, else one made of the digest of its identity.
pub open spec fn vocab_id_of(es: Seq<(Seq<char>, TreeV)>, key: Seq<char>) -> Seq<char> {
    match field(es, "id"@) {
        Some(i) => i,
        None => "mmspanish__vocab_"@ + b64_of(blake3_of(vstd::utf8::encode_utf8(key))),
    }
}

/// Builds a vocabulary entry from the entries of a classified object.
pub fn build_vocab(source: &str, level_path: &str, es: &Vec<(Vec<char>, Tree)>) -> (r: Result<Vocabulary, String>)
    ensures
        match r {
            Err(e) => vocab_build_error(entries_view(es@)) == Some(e@),
            Ok(v) => {
                let ev = entries_view(es@);
                &&& vocab_build_error(ev) is None
                &&& Some(v.spanish@) == trimmed_field(ev, "spanish"@)
                &&& Some(v.pos@) == trimmed_field(ev, "pos"@)
                &&& opt_text(v.gender) == gender_of(ev)
                &&& Some(v.english_gloss@) == field(ev, "english_gloss"@)
                &&& Some(v.definition@) == field(ev, "definition"@)
                &&& opt_text(v.origin) == field(ev, "origin"@)
                &&& opt_text(v.story) == field(ev, "story"@)
                &&& examples_of(find_key(ev, "examples"@)) == Ok::<_, Seq<char>>(pairs_view(v.examples@))
                &&& v.level == level_from(level_path@, find_key(ev, "level"@))
                &&& strings_view(v.tags@) == tags_of(find_key(ev, "tags"@))
                &&& strings_view(v.source_files@) == seq![source@]
                &&& opt_text(v.notes) == field(ev, "notes"@)
                &&& v.id@ == vocab_id_of(ev, vocab_digest_key(v.spanish@, v.pos@, opt_text(v.gender)))
            },
        },
{
    let spanish = match field_text(es, "spanish") {
        Some(s) => crate::text::trim_text(s.as_str()),
        None => {
            return Err("spanish missing".to_owned());
        },
    };
    let pos = match field_text(es, "pos") {
        Some(s) => crate::text::trim_text(s.as_str()),
        None => {
            return Err("pos missing".to_owned());
        },
    };
    let gender = match field_text(es, "gender") {
        Some(g) => crate::classify::normalize_gender(g.as_str()),
        None => None,
    };
    let english_gloss = match field_text(es, "english_gloss") {
        Some(s) => s,
        None => {
            return Err("english_gloss missing".to_owned());
        },
    };
    let definition = match field_text(es, "definition") {
        Some(s) => s,
        None => {
            return Err("definition missing".to_owned());
        },
    };
    let origin = field_text(es, "origin");
    let story = field_text(es, "story");
    let examples = match normalize_examples(entry_ref(es, "examples")) {
        Ok(x) => x,
        Err(e) => {
            return Err(e);
        },
    };
    let level = normalize_level(level_path, entry_ref(es, "level"));
    let tags = normalize_tags(entry_ref(es, "tags"));
    let notes = field_text(es, "notes");
    let id = match field_text(es, "id") {
        Some(i) => i,
        None => {
            let mut key = chars_of(crate::text::lowercase(spanish.as_str()).as_str());
            let bar = chars_of("|");
            push_all(&mut key, &bar);
            let lp = chars_of(crate::text::lowercase(pos.as_str()).as_str());
            push_all(&mut key, &lp);
            push_all(&mut key, &bar);
            let g = match &gender {
                Some(g) => chars_of(g.as_str()),
                None => chars_of("null"),
            };
            push_all(&mut key, &g);
            let key_text = string_of(&key);
            let digest = blake3_digest(key_text.as_str().as_bytes());
            let encoded = b64_url(&digest);
            let mut v = chars_of("mmspanish__vocab_");
            let ec = chars_of(encoded.as_str());
            push_all(&mut v, &ec);
            string_of(&v)
        },
    };
    let source_files = vec![source.to_owned()];
    assert(strings_view(source_files@) =~= seq![source@]);
    Ok(
        Vocabulary {
            id,
            spanish,
            pos,
            gender,
            english_gloss,
            definition,
            origin,
            story,
            examples,
            level,
            tags,
            source_files,
            notes,
        },
    )
}

} // verus!

verus! {

/// The records and leftovers read from one file.
#[derive(Debug, Default)]
pub struct NormalizedOutput {
    pub lessons: Vec<Lesson>,
    pub vocabulary: Vec<Vocabulary>,
    pub rejects: Vec<String>,
    pub invalid: Vec<String>,
}

/// Moves everything `other` holds to the end of `target`'s lists.
pub fn merge_classified(target: &mut NormalizedOutput, other: NormalizedOutput)
    ensures
        final(target).lessons@ == old(target).lessons@ + other.lessons@,
        final(target).vocabulary@ == old(target).vocabulary@ + other.vocabulary@,
        final(target).rejects@ == old(target).rejects@ + other.rejects@,
        final(target).invalid@ == old(target).invalid@ + other.invalid@,
{
    let mut other = other;
    target.lessons.append(&mut other.lessons);
    target.vocabulary.append(&mut other.vocabulary);
    target.rejects.append(&mut other.rejects);
    target.invalid.append(&mut other.invalid);
}

/// The entries look like a lesson: a title and steps (or phases).
pub open spec fn lesson_like(c: Seq<(Seq<char>, TreeV)>) -> bool {
    find_key(c, "title"@) is Some && (find_key(c, "steps"@) is Some || find_key(c, "phases"@)
        is Some)
}

/// The entries look like a vocabulary entry: a Spanish word and a gloss.
pub open spec fn vocab_like(c: Seq<(Seq<char>, TreeV)>) -> bool {
    find_key(c, "spanish"@) is Some && find_key(c, "english_gloss"@) is Some
}

/// The entries of an object once its keys are canonical.
pub open spec fn canonical(es: Seq<(Seq<char>, TreeV)>) -> Seq<(Seq<char>, TreeV)> {
    apply_renames(es, renames_of(es))
}

/// The diagnostic for a record that could not be built.
pub open spec fn invalid_line(display: Seq<char>, e: Seq<char>) -> Seq<char> {
    display + ": "@ + e
}

/// The diagnostics an object leaves when it looks like records that cannot be built.
pub open spec fn object_invalid(display: Seq<char>, c: Seq<(Seq<char>, TreeV)>) -> Seq<Seq<char>> {
    (if lesson_like(c) && lesson_build_error(c) is Some {
        seq![invalid_line(display, lesson_build_error(c).unwrap())]
    } else {
        seq![]
    }) + (if vocab_like(c) && vocab_build_error(c) is Some {
        seq![invalid_line(display, vocab_build_error(c).unwrap())]
    } else {
        seq![]
    })
}

/// What classifying one object yields: lessons and entries built, the texts
/// left for inspection, and the diagnostics.
pub open spec fn object_out(display: Seq<char>, c: Seq<(Seq<char>, TreeV)>) -> (nat, nat, Seq<Seq<char>>, Seq<Seq<char>>) {
    (
        if lesson_like(c) && lesson_build_error(c) is None {
            1nat
        } else {
            0nat
        },
        if vocab_like(c) && vocab_build_error(c) is None {
            1nat
        } else {
            0nat
        },
        if !lesson_like(c) && !vocab_like(c) {
            seq![crate::json::pretty_text(TreeV::Obj(c))]
        } else {
            seq![]
        },
        object_invalid(display, c),
    )
}

/// Adds up two classification outcomes, the first one's texts first.
pub open spec fn add_out(
    a: (nat, nat, Seq<Seq<char>>, Seq<Seq<char>>),
    b: (nat, nat, Seq<Seq<char>>, Seq<Seq<char>>),
) -> (nat, nat, Seq<Seq<char>>, Seq<Seq<char>>) {
    (a.0 + b.0, a.1 + b.1, a.2 + b.2, a.3 + b.3)
}

/// What classifying a value yields.
pub open spec fn tree_out(display: Seq<char>, v: TreeV) -> (nat, nat, Seq<Seq<char>>, Seq<Seq<char>>)
    decreases v,
{
    match v {
        TreeV::Arr(items) => items_out(display, items),
        TreeV::Obj(es) => object_out(display, canonical(es)),
        other => (0, 0, seq![crate::json::pretty_text(other)], seq![]),
    }
}

/// What classifying a list of values, in order, yields.
pub open spec fn items_out(display: Seq<char>, items: Seq<TreeV>) -> (nat, nat, Seq<Seq<char>>, Seq<Seq<char>>)
    decreases items,
{
    if items.len() == 0 {
        (0, 0, seq![], seq![])
    } else {
        add_out(items_out(display, items.drop_last()), tree_out(display, items.last()))
    }
}

/// The counts and texts an output holds.
pub open spec fn out_view(o: NormalizedOutput) -> (nat, nat, Seq<Seq<char>>, Seq<Seq<char>>) {
    (o.lessons@.len(), o.vocabulary@.len(), strings_view(o.rejects@), strings_view(o.invalid@))
}

proof fn lemma_merged_view(a: NormalizedOutput, b: NormalizedOutput, c: NormalizedOutput)
    requires
        c.lessons@ == a.lessons@ + b.lessons@,
        c.vocabulary@ == a.vocabulary@ + b.vocabulary@,
        c.rejects@ == a.rejects@ + b.rejects@,
        c.invalid@ == a.invalid@ + b.invalid@,
    ensures
        out_view(c) == add_out(out_view(a), out_view(b)),
{
    assert(strings_view(c.rejects@) =~= strings_view(a.rejects@) + strings_view(b.rejects@));
    assert(strings_view(c.invalid@) =~= strings_view(a.invalid@) + strings_view(b.invalid@));
}

fn invalid_text(display: &str, e: &String) -> (r: String)
    ensures
        r@ == invalid_line(display@, e@),
{
    let a = crate::text::concat_text(display, ": ");
    crate::text::concat_text(a.as_str(), e.as_str())
}

/// Sorts a parsed value into records: a list item by item, an object as a
/// lesson, a vocabulary entry, both or neither; whatever is neither is left
/// for inspection in its pretty form.
pub fn classify_and_build(source: &str, display: &str, level_path: &str, value: &Tree) -> (r:
    NormalizedOutput)
    ensures
        out_view(r) == tree_out(display@, value@),
    decreases value,
{
    let mut out = NormalizedOutput {
        lessons: Vec::new(),
        vocabulary: Vec::new(),
        rejects: Vec::new(),
        invalid: Vec::new(),
    };
    match value {
        Tree::Arr(items) => {
            proof {
                lemma_arr_view(*items);
            }
            let ghost iv = trees_view(items@);
            let mut i: usize = 0;
            assert(iv.take(0) =~= Seq::<TreeV>::empty());
            assert(out_view(out) == items_out(display@, iv.take(0))) by {
                assert(strings_view(out.rejects@) =~= Seq::<Seq<char>>::empty());
                assert(strings_view(out.invalid@) =~= Seq::<Seq<char>>::empty());
            }
            while i < items.len()
                invariant
                    i <= items@.len(),
                    iv == trees_view(items@),
                    value@ == TreeV::Arr(iv),
                    decreases_to!(*value => *items),
                    out_view(out) == items_out(display@, iv.take(i as int)),
                decreases items@.len() - i,
            {
                proof {
                    crate::tree::lemma_vec_child_decreases(*items, i as int);
                }
                assert(iv.take(i + 1).drop_last() =~= iv.take(i as int));
                assert(iv.take(i + 1).last() == items@[i as int]@);
                let nested = classify_and_build(source, display, level_path, &items[i]);
                let ghost before = out;
                let ghost n = nested;
                merge_classified(&mut out, nested);
                proof {
                    lemma_merged_view(before, n, out);
                }
                i = i + 1;
            }
            assert(iv.take(items@.len() as int) =~= iv);
            out
        },
        Tree::Obj(_) => {
            let copy = value.deep_copy();
            match copy {
                Tree::Obj(mut es) => {
                    proof {
                        lemma_obj_view(es);
                    }
                    let ghost e0 = entries_view(es@);
                    assert(value@ == TreeV::Obj(e0));
                    canonicalize_keys(&mut es);
                    let ghost c = entries_view(es@);
                    let is_lesson = entry_ref(&es, "title").is_some() && (entry_ref(&es, "steps").is_some()
                        || entry_ref(&es, "phases").is_some());
                    let is_vocab = entry_ref(&es, "spanish").is_some() && entry_ref(&es, "english_gloss").is_some();
                    let ghost inv0 = strings_view(out.invalid@);
                    if is_lesson {
                        match build_lesson(source, level_path, &es) {
                            Ok(l) => out.lessons.push(l),
                            Err(e) => out.invalid.push(invalid_text(display, &e)),
                        }
                    }
                    let ghost inv1 = strings_view(out.invalid@);
                    if is_vocab {
                        match build_vocab(source, level_path, &es) {
                            Ok(v) => out.vocabulary.push(v),
                            Err(e) => out.invalid.push(invalid_text(display, &e)),
                        }
                    }
                    assert(strings_view(out.invalid@) =~= object_invalid(display@, c));
                    if !is_lesson && !is_vocab {
                        proof {
                            lemma_obj_view(es);
                        }
                        let t = Tree::Obj(es);
                        let p = crate::json::to_pretty(&t);
                        out.rejects.push(string_of(&p));
                        assert(strings_view(out.rejects@) =~= seq![
                            crate::json::pretty_text(TreeV::Obj(c)),
                        ]);
                    } else {
                        assert(strings_view(out.rejects@) =~= Seq::<Seq<char>>::empty());
                    }
                    assert(out_view(out) == object_out(display@, c));
                    out
                },
                _ => out,
            }
        },
        other => {
            let p = crate::json::to_pretty(other);
            out.rejects.push(string_of(&p));
            assert(strings_view(out.rejects@) =~= seq![crate::json::pretty_text(other@)]);
            assert(strings_view(out.invalid@) =~= Seq::<Seq<char>>::empty());
            out
        },
    }
}

} // verus!

verus! {

/// The tree a text reads as, unless it is blank or reads as nothing.
pub open spec fn full_parse(s: Seq<char>) -> Option<TreeV> {
    if is_blank(s) {
        None
    } else {
        crate::json::tolerant_spec(s)
    }
}

/// Reads a whole text as one tree, unless it is blank.
pub fn try_full_parse(input: &Vec<char>) -> (r: Option<Tree>)
    ensures
        crate::tree::opt_view(r) == full_parse(input@),
{
    let s = string_of(input);
    if crate::text::blank(s.as_str()) {
        return None;
    }
    crate::json::tolerant_parse(input)
}

/// The model of a fragment: a tree, or the raw text that did not parse.
pub open spec fn frag_view(f: Result<Tree, String>) -> Result<TreeV, Seq<char>> {
    match f {
        Ok(t) => Ok(t@),
        Err(s) => Err(s@),
    }
}

pub open spec fn frags_view(v: Seq<Result<Tree, String>>) -> Seq<Result<TreeV, Seq<char>>> {
    Seq::new(v.len(), |i: int| frag_view(v[i]))
}

/// The fragments of the non-blank lines, each trimmed, in order.
pub open spec fn line_frags(ls: Seq<Seq<char>>) -> Seq<Result<TreeV, Seq<char>>>
    decreases ls.len(),
{
    if ls.len() == 0 {
        seq![]
    } else {
        let t = trim_of(ls.last());
        if t.len() == 0 {
            line_frags(ls.drop_last())
        } else {
            line_frags(ls.drop_last()).push(
                match full_parse(t) {
                    Some(v) => Ok(v),
                    None => Err(t),
                },
            )
        }
    }
}

/// The fragments of a file: the whole text when it reads as one tree, else
/// one per non-blank line.
pub open spec fn fragments_of(content: Seq<char>) -> Seq<Result<TreeV, Seq<char>>> {
    match full_parse(content) {
        Some(v) => seq![Ok(v)],
        None => line_frags(split_on(content, '\n')),
    }
}

/// Splits a file's text into parsed fragments.
pub fn collect_fragments(content: &str) -> (r: Vec<Result<Tree, String>>)
    ensures
        frags_view(r@) == fragments_of(content@),
{
    let chars = chars_of(content);
    let mut out: Vec<Result<Tree, String>> = Vec::new();
    match try_full_parse(&chars) {
        Some(v) => {
            out.push(Ok(v));
            assert(frags_view(out@) =~= fragments_of(content@));
            return out;
        },
        None => {},
    }
    let lines = split_chars(&chars, '\n');
    let ghost lv = crate::merge::texts_view(lines@);
    let mut i: usize = 0;
    assert(lv.take(0) =~= Seq::<Seq<char>>::empty());
    assert(frags_view(out@) =~= Seq::<Result<TreeV, Seq<char>>>::empty());
    while i < lines.len()
        invariant
            lv == crate::merge::texts_view(lines@),
            lv == split_on(content@, '\n'),
            full_parse(content@) is None,
            i <= lines@.len(),
            frags_view(out@) == line_frags(lv.take(i as int)),
        decreases lines@.len() - i,
    {
        assert(lv.take(i + 1).drop_last() =~= lv.take(i as int));
        assert(lv.take(i + 1).last() == lines@[i as int]@);
        let t = trim_chars(&lines[i]);
        if t.len() > 0 {
            let ghost before = frags_view(out@);
            let f = match try_full_parse(&t) {
                Some(v) => Ok(v),
                None => Err(string_of(&t)),
            };
            out.push(f);
            assert(frags_view(out@) =~= before.push(frag_view(f)));
        }
        i = i + 1;
    }
    assert(lv.take(lines@.len() as int) =~= lv);
    out
}

/// What classifying the fragments of a file yields; a fragment that did not
/// parse is left for inspection as it stands.
pub open spec fn frags_out(display: Seq<char>, fs: Seq<Result<TreeV, Seq<char>>>) -> (nat, nat, Seq<Seq<char>>, Seq<Seq<char>>)
    decreases fs.len(),
{
    if fs.len() == 0 {
        (0, 0, seq![], seq![])
    } else {
        add_out(
            frags_out(display, fs.drop_last()),
            match fs.last() {
                Ok(v) => tree_out(display, v),
                Err(raw) => (0, 0, seq![raw], seq![]),
            },
        )
    }
}

/// Reads the records of one file. `source` names the file in the records,
/// `display` in diagnostics, and `level_path` is searched for a tier.
pub fn parse_and_normalize(source: &str, display: &str, level_path: &str, content: &str) -> (r:
    NormalizedOutput)
    ensures
        out_view(r) == frags_out(display@, fragments_of(content@)),
{
    let mut output = NormalizedOutput {
        lessons: Vec::new(),
        vocabulary: Vec::new(),
        rejects: Vec::new(),
        invalid: Vec::new(),
    };
    let fragments = collect_fragments(content);
    let ghost fv = frags_view(fragments@);
    let mut i: usize = 0;
    assert(fv.take(0) =~= Seq::<Result<TreeV, Seq<char>>>::empty());
    assert(out_view(output) == frags_out(display@, fv.take(0))) by {
        assert(strings_view(output.rejects@) =~= Seq::<Seq<char>>::empty());
        assert(strings_view(output.invalid@) =~= Seq::<Seq<char>>::empty());
    }
    while i < fragments.len()
        invariant
            fv == frags_view(fragments@),
            fv == fragments_of(content@),
            i <= fragments@.len(),
            out_view(output) == frags_out(display@, fv.take(i as int)),
        decreases fragments@.len() - i,
    {
        assert(fv.take(i + 1).drop_last() =~= fv.take(i as int));
        assert(fv.take(i + 1).last() == frag_view(fragments@[i as int]));
        let ghost before = output;
        match &fragments[i] {
            Ok(value) => {
                let classified = classify_and_build(source, display, level_path, value);
                let ghost n = classified;
                merge_classified(&mut output, classified);
                proof {
                    lemma_merged_view(before, n, output);
                }
            },
            Err(raw) => {
                output.rejects.push(raw.clone());
                assert(strings_view(output.rejects@) =~= strings_view(before.rejects@) + seq![raw@]);
                assert(out_view(output) == add_out(out_view(before), (0, 0, seq![raw@], seq![])));
            },
        }
        i = i + 1;
    }
    assert(fv.take(fragments@.len() as int) =~= fv);
    output
}

} // verus!
