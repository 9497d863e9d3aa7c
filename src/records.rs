use vstd::prelude::*;

use crate::audit::{numeral, push_numeral};
use crate::merge::{key_less, variant_sep};
use crate::models::{
    AuditLog, DuplicateGroup, ExamplePair, Lesson, Level, Vocabulary, pair_key, vocab_key,
};
use crate::text::{
    blank, byte_len, chars_of, concat_text, contains_text, is_blank, lower_of, occurs_in, strings_view,
    trim_of, trim_text,
};

verus! {

/// The text of an optional string.
pub open spec fn opt_text(o: Option<String>) -> Option<Seq<char>> {
    match o {
        Some(s) => Some(s@),
        None => None,
    }
}

/// The definition policy: a blank base takes the incoming text; a non-blank
/// incoming text that differs once trimmed is appended after the variant
/// separator.
pub open spec fn definition_merge(existing: Seq<char>, incoming: Seq<char>) -> Seq<char> {
    if is_blank(existing) {
        incoming
    } else if !is_blank(incoming) && trim_of(existing) != trim_of(incoming) {
        existing + variant_sep() + incoming
    } else {
        existing
    }
}

/// The line that records that `alt` was not kept for `field`.
pub open spec fn alt_entry(field: Seq<char>, alt: Seq<char>) -> Seq<char> {
    "ALT "@ + field + " => "@ + alt
}

/// The notes after recording that `alt` was not kept for `field`, unless
/// the notes already hold that line.
pub open spec fn note_appended(notes: Option<Seq<char>>, field: Seq<char>, alt: Seq<char>) -> Option<
    Seq<char>,
> {
    if is_blank(alt) {
        notes
    } else {
        match notes {
            Some(e) => if occurs_in(alt_entry(field, alt), e) {
                Some(e)
            } else {
                Some(e + "\n"@ + alt_entry(field, alt))
            },
            None => Some(alt_entry(field, alt)),
        }
    }
}

/// The short-field policy: the kept text, and the text set aside, if any.
pub open spec fn string_field_merge(target: Seq<char>, incoming: Seq<char>) -> (
    Seq<char>,
    Option<Seq<char>>,
) {
    if is_blank(target) {
        (incoming, None)
    } else if is_blank(incoming) {
        (target, None)
    } else if target != incoming {
        if byte_len(incoming) > byte_len(target) {
            (incoming, Some(target))
        } else {
            (target, Some(incoming))
        }
    } else {
        (target, None)
    }
}

/// The notes once the short-field policy has set a text aside, if it did.
pub open spec fn notes_after_field(
    notes: Option<Seq<char>>,
    field: Seq<char>,
    target: Seq<char>,
    incoming: Seq<char>,
) -> Option<Seq<char>> {
    match string_field_merge(target, incoming).1 {
        Some(a) => note_appended(notes, field, a),
        None => notes,
    }
}

/// The optional narrative policy.
pub open spec fn story_merge(target: Option<Seq<char>>, incoming: Option<Seq<char>>) -> Option<
    Seq<char>,
> {
    match incoming {
        None => target,
        Some(v) => match target {
            None => Some(v),
            Some(e) => if is_blank(e) {
                Some(v)
            } else if trim_of(e) != trim_of(v) {
                Some(e + variant_sep() + v)
            } else {
                Some(e)
            },
        },
    }
}

/// The set-union policy: incoming texts not yet present are appended in order.
pub open spec fn union_texts(target: Seq<Seq<char>>, incoming: Seq<Seq<char>>) -> Seq<Seq<char>>
    decreases incoming.len(),
{
    if incoming.len() == 0 {
        target
    } else {
        let u = union_texts(target, incoming.drop_last());
        if u.contains(incoming.last()) {
            u
        } else {
            u.push(incoming.last())
        }
    }
}

/// Some pair of `u` has the key of `p`.
pub open spec fn pair_present(u: Seq<ExamplePair>, p: ExamplePair) -> bool {
    exists|m: int| 0 <= m < u.len() && pair_key(#[trigger] u[m]) == pair_key(p)
}

/// The example-pair policy: incoming pairs whose key is not yet present are appended.
pub open spec fn union_pairs(target: Seq<ExamplePair>, incoming: Seq<ExamplePair>) -> Seq<
    ExamplePair,
>
    decreases incoming.len(),
{
    if incoming.len() == 0 {
        target
    } else {
        let u = union_pairs(target, incoming.drop_last());
        if pair_present(u, incoming.last()) {
            u
        } else {
            u.push(incoming.last())
        }
    }
}

/// The free-text notes policy.
pub open spec fn notes_merge(existing: Option<Seq<char>>, incoming: Option<Seq<char>>) -> Option<
    Seq<char>,
> {
    match (existing, incoming) {
        (Some(a), Some(b)) => if occurs_in(b, a) {
            Some(a)
        } else {
            Some(a + "\n"@ + b)
        },
        (None, Some(b)) => Some(b),
        (Some(a), None) => Some(a),
        (None, None) => None,
    }
}

/// The level policy: the base's level stays unless it is unset.
pub open spec fn level_merge(existing: Level, incoming: Level) -> Level {
    if existing == Level::UNSET && incoming != Level::UNSET {
        incoming
    } else {
        existing
    }
}

/// The sentinel of an unassigned unit or lesson number.
pub const UNASSIGNED: u32 = 9999;

/// The ordinal policy: the base's number stays unless it is unassigned.
pub open spec fn ordinal_merge(existing: u32, incoming: u32) -> u32 {
    if existing == UNASSIGNED && incoming != UNASSIGNED {
        incoming
    } else {
        existing
    }
}

/// The short-field policy depends on fold order: for two distinct texts of
/// the same byte length, the base keeps its own text and notes the other one.
pub proof fn lemma_short_field_order_sensitive(a: Seq<char>, b: Seq<char>)
    requires
        !is_blank(a),
        !is_blank(b),
        a != b,
        byte_len(a) == byte_len(b),
    ensures
        string_field_merge(a, b) == (a, Some(b)),
        string_field_merge(b, a) == (b, Some(a)),
{
}

fn separated(a: &str, b: &str) -> (r: String)
    ensures
        r@ == a@ + variant_sep() + b@,
{
    let first = concat_text(a, "\n\n— MERGED VARIANT —\n\n");
    concat_text(first.as_str(), b)
}

pub fn merge_definition_field(existing: &mut String, incoming: &str)
    ensures
        final(existing)@ == definition_merge(old(existing)@, incoming@),
{
    if blank(existing.as_str()) {
        *existing = incoming.to_owned();
    } else if !blank(incoming) {
        let a = trim_text(existing.as_str());
        let b = trim_text(incoming);
        if !(a == b) {
            *existing = separated(existing.as_str(), incoming);
        }
    }
}

pub fn append_note(notes: &mut Option<String>, field: &str, alt: String)
    ensures
        opt_text(*final(notes)) == note_appended(opt_text(*old(notes)), field@, alt@),
{
    if blank(alt.as_str()) {
        return;
    }
    let head = concat_text("ALT ", field);
    let mid = concat_text(head.as_str(), " => ");
    let entry = concat_text(mid.as_str(), alt.as_str());
    match notes {
        Some(existing) => {
            if !contains_text(existing.as_str(), entry.as_str()) {
                let with_nl = concat_text(existing.as_str(), "\n");
                *existing = concat_text(with_nl.as_str(), entry.as_str());
            }
        },
        None => {
            *notes = Some(entry);
        },
    }
}

pub fn merge_string_field(target: &mut String, incoming: &str, field: &str, notes: &mut Option<String>)
    ensures
        final(target)@ == string_field_merge(old(target)@, incoming@).0,
        opt_text(*final(notes)) == notes_after_field(
            opt_text(*old(notes)),
            field@,
            old(target)@,
            incoming@,
        ),
{
    if blank(target.as_str()) {
        *target = incoming.to_owned();
        return;
    }
    if blank(incoming) {
        return;
    }
    if !crate::text::text_is(target.as_str(), incoming) {
        if incoming.len() > target.as_str().len() {
            let prev = target.clone();
            append_note(notes, field, prev);
            *target = incoming.to_owned();
        } else {
            append_note(notes, field, incoming.to_owned());
        }
    }
}

pub fn merge_optional_story(target: &mut Option<String>, incoming: Option<String>)
    ensures
        opt_text(*final(target)) == story_merge(opt_text(*old(target)), opt_text(incoming)),
{
    match incoming {
        Some(value) => match target {
            Some(existing) => {
                if blank(existing.as_str()) {
                    *existing = value;
                } else {
                    let a = trim_text(existing.as_str());
                    let b = trim_text(value.as_str());
                    if !(a == b) {
                        *existing = separated(existing.as_str(), value.as_str());
                    }
                }
            },
            None => {
                *target = Some(value);
            },
        },
        None => {},
    }
}

/// Whether `v` holds a string equal to `s`.
fn holds_text(v: &Vec<String>, s: &String) -> (r: bool)
    ensures
        r == strings_view(v@).contains(s@),
{
    let mut i: usize = 0;
    while i < v.len()
        invariant
            i <= v@.len(),
            forall|k: int| 0 <= k < i ==> v@[k]@ != s@,
        decreases v@.len() - i,
    {
        if v[i] == *s {
            assert(strings_view(v@)[i as int] == s@);
            return true;
        }
        i = i + 1;
    }
    assert forall|k: int| 0 <= k < strings_view(v@).len() implies strings_view(v@)[k] != s@ by {
        assert(strings_view(v@)[k] == v@[k]@);
    }
    false
}

/// The index of a string of `v` equal to `s`, if there is one.
fn find_text(v: &Vec<String>, s: &String) -> (r: Option<usize>)
    ensures
        match r {
            Some(p) => p < v@.len() && v@[p as int]@ == s@ && forall|q: int| 0 <= q < p ==> v@[q]@ != s@,
            None => !strings_view(v@).contains(s@),
        },
{
    let mut i: usize = 0;
    while i < v.len()
        invariant
            i <= v@.len(),
            forall|k: int| 0 <= k < i ==> v@[k]@ != s@,
        decreases v@.len() - i,
    {
        if v[i] == *s {
            return Some(i);
        }
        i = i + 1;
    }
    assert forall|k: int| 0 <= k < strings_view(v@).len() implies strings_view(v@)[k] != s@ by {
        assert(strings_view(v@)[k] == v@[k]@);
    }
    None
}

/// Appends the texts of `incoming` that `target` does not hold yet, in order.
fn union_into(target: &mut Vec<String>, incoming: Vec<String>)
    ensures
        strings_view(final(target)@) == union_texts(strings_view(old(target)@), strings_view(incoming@)),
{
    let ghost t0 = strings_view(target@);
    let ghost inc = strings_view(incoming@);
    let mut i: usize = 0;
    assert(inc.take(0).len() == 0);
    while i < incoming.len()
        invariant
            t0 == strings_view(old(target)@),
            inc == strings_view(incoming@),
            i <= incoming@.len(),
            strings_view(target@) == union_texts(t0, inc.take(i as int)),
        decreases incoming@.len() - i,
    {
        assert(inc.take(i + 1).drop_last() =~= inc.take(i as int));
        assert(inc.take(i + 1).last() == incoming@[i as int]@);
        let item = incoming[i].clone();
        if !holds_text(target, &item) {
            let ghost prev = strings_view(target@);
            target.push(item);
            assert(strings_view(target@) =~= prev.push(incoming@[i as int]@));
        }
        i = i + 1;
    }
    assert(inc.take(incoming@.len() as int) =~= inc);
}

pub fn merge_tags(target: &mut Vec<String>, incoming: Vec<String>)
    ensures
        strings_view(final(target)@) == union_texts(strings_view(old(target)@), strings_view(incoming@)),
{
    union_into(target, incoming)
}

pub fn merge_sources(target: &mut Vec<String>, incoming: Vec<String>)
    ensures
        strings_view(final(target)@) == union_texts(strings_view(old(target)@), strings_view(incoming@)),
{
    union_into(target, incoming)
}

pub fn merge_examples(target: &mut Vec<ExamplePair>, incoming: Vec<ExamplePair>)
    ensures
        final(target)@ == union_pairs(old(target)@, incoming@),
{
    let mut keys: Vec<(String, String)> = Vec::new();
    let mut k: usize = 0;
    while k < target.len()
        invariant
            k <= target@.len(),
            keys@.len() == k,
            forall|m: int| 0 <= m < k ==> ((#[trigger] keys@[m]).0@, keys@[m].1@) == pair_key(target@[m]),
        decreases target@.len() - k,
    {
        let key = target[k].normalize_key();
        keys.push(key);
        k = k + 1;
    }
    let ghost t0 = target@;
    let mut i: usize = 0;
    while i < incoming.len()
        invariant
            t0 == old(target)@,
            i <= incoming@.len(),
            target@ == union_pairs(t0, incoming@.take(i as int)),
            keys@.len() == target@.len(),
            forall|m: int|
                0 <= m < keys@.len() ==> ((#[trigger] keys@[m]).0@, keys@[m].1@) == pair_key(target@[m]),
        decreases incoming@.len() - i,
    {
        assert(incoming@.take(i + 1).drop_last() =~= incoming@.take(i as int));
        let p = &incoming[i];
        let key = p.normalize_key();
        let mut found = false;
        let mut m: usize = 0;
        while m < keys.len()
            invariant
                m <= keys@.len(),
                !found ==> forall|q: int| 0 <= q < m ==> ((#[trigger] keys@[q]).0@, keys@[q].1@) != (key.0@, key.1@),
                found ==> exists|q: int| 0 <= q < keys@.len() && ((#[trigger] keys@[q]).0@, keys@[q].1@) == (key.0@, key.1@),
            decreases keys@.len() - m,
        {
            if !found && keys[m].0 == key.0 && keys[m].1 == key.1 {
                found = true;
                assert(((keys@[m as int]).0@, keys@[m as int].1@) == (key.0@, key.1@));
            }
            m = m + 1;
        }
        proof {
            if found {
                let q = choose|q: int| 0 <= q < keys@.len() && ((#[trigger] keys@[q]).0@, keys@[q].1@) == (key.0@, key.1@);
                assert(pair_key(target@[q]) == pair_key(*p));
            } else {
                assert forall|q: int| 0 <= q < target@.len() implies pair_key(#[trigger] target@[q]) != pair_key(*p) by {
                    assert(((keys@[q]).0@, keys@[q].1@) != (key.0@, key.1@));
                }
            }
        }
        if !found {
            let c = ExamplePair { es: p.es.clone(), en: p.en.clone() };
            assert(c == *p);
            target.push(c);
            keys.push(key);
        }
        i = i + 1;
    }
    assert(incoming@.take(incoming@.len() as int) =~= incoming@);
}

pub fn merge_notes(existing: Option<String>, incoming: Option<String>) -> (r: Option<String>)
    ensures
        opt_text(r) == notes_merge(opt_text(existing), opt_text(incoming)),
{
    match (existing, incoming) {
        (Some(a), Some(b)) => {
            if !contains_text(a.as_str(), b.as_str()) {
                let with_nl = concat_text(a.as_str(), "\n");
                Some(concat_text(with_nl.as_str(), b.as_str()))
            } else {
                Some(a)
            }
        },
        (None, Some(b)) => Some(b),
        (Some(a), None) => Some(a),
        (None, None) => None,
    }
}

} // verus!

verus! {

/// The model of a vocabulary entry.
pub struct VocabV {
    pub id: Seq<char>,
    pub spanish: Seq<char>,
    pub pos: Seq<char>,
    pub gender: Option<Seq<char>>,
    pub english_gloss: Seq<char>,
    pub definition: Seq<char>,
    pub origin: Option<Seq<char>>,
    pub story: Option<Seq<char>>,
    pub examples: Seq<ExamplePair>,
    pub level: Level,
    pub tags: Seq<Seq<char>>,
    pub source_files: Seq<Seq<char>>,
    pub notes: Option<Seq<char>>,
}

pub open spec fn vocab_view(v: Vocabulary) -> VocabV {
    VocabV {
        id: v.id@,
        spanish: v.spanish@,
        pos: v.pos@,
        gender: opt_text(v.gender),
        english_gloss: v.english_gloss@,
        definition: v.definition@,
        origin: opt_text(v.origin),
        story: opt_text(v.story),
        examples: v.examples@,
        level: v.level,
        tags: strings_view(v.tags@),
        source_files: strings_view(v.source_files@),
        notes: opt_text(v.notes),
    }
}

pub open spec fn vocab_views(s: Seq<Vocabulary>) -> Seq<VocabV> {
    Seq::new(s.len(), |i: int| vocab_view(s[i]))
}

/// The entry `e` becomes once `i` is folded into it.
pub open spec fn merge_v(e: VocabV, i: VocabV) -> VocabV {
    VocabV {
        id: e.id,
        spanish: if is_blank(e.spanish) {
            i.spanish
        } else {
            e.spanish
        },
        pos: if is_blank(e.pos) {
            i.pos
        } else {
            e.pos
        },
        gender: if e.gender is None {
            i.gender
        } else {
            e.gender
        },
        english_gloss: string_field_merge(e.english_gloss, i.english_gloss).0,
        definition: definition_merge(e.definition, i.definition),
        origin: story_merge(e.origin, i.origin),
        story: story_merge(e.story, i.story),
        examples: union_pairs(e.examples, i.examples),
        level: level_merge(e.level, i.level),
        tags: union_texts(e.tags, i.tags),
        source_files: union_texts(e.source_files, i.source_files),
        notes: notes_merge(
            notes_after_field(e.notes, "english_gloss"@, e.english_gloss, i.english_gloss),
            i.notes,
        ),
    }
}

/// The identity key of an entry's model.
pub open spec fn vkey(m: VocabV) -> (Seq<char>, Seq<char>, Seq<char>) {
    (
        lower_of(m.spanish),
        lower_of(m.pos),
        lower_of(
            match m.gender {
                Some(g) => g,
                None => "null"@,
            },
        ),
    )
}

/// The index of the first entry with key `k`, or -1.
pub open spec fn first_vkey(acc: Seq<VocabV>, k: (Seq<char>, Seq<char>, Seq<char>)) -> int
    decreases acc.len(),
{
    if acc.len() == 0 {
        -1
    } else if vkey(acc[0]) == k {
        0
    } else {
        let r = first_vkey(acc.drop_first(), k);
        if r < 0 {
            -1
        } else {
            r + 1
        }
    }
}

/// The entries that folding `items` left to right leaves: each joins the
/// first entry with its key, or starts a new one.
pub open spec fn fold_vocab(items: Seq<VocabV>) -> Seq<VocabV>
    decreases items.len(),
{
    if items.len() == 0 {
        seq![]
    } else {
        let acc = fold_vocab(items.drop_last());
        let p = first_vkey(acc, vkey(items.last()));
        if p >= 0 {
            acc.update(p, merge_v(acc[p], items.last()))
        } else {
            acc.push(items.last())
        }
    }
}

proof fn lemma_first_vkey(acc: Seq<VocabV>, k: (Seq<char>, Seq<char>, Seq<char>), p: int)
    requires
        -1 <= p < acc.len(),
        p >= 0 ==> vkey(acc[p]) == k,
        forall|q: int| 0 <= q < acc.len() && (p < 0 || q < p) ==> vkey(#[trigger] acc[q]) != k,
    ensures
        first_vkey(acc, k) == p,
    decreases acc.len(),
{
    if acc.len() > 0 && p != 0 {
        let t = acc.drop_first();
        assert forall|q: int| 0 <= q < t.len() && (p - 1 < 0 || q < p - 1) implies vkey(#[trigger] t[q]) != k by {
            assert(t[q] == acc[q + 1]);
        }
        if p > 0 {
            assert(t[p - 1] == acc[p]);
            lemma_first_vkey(t, k, p - 1);
        } else {
            lemma_first_vkey(t, k, -1);
        }
    }
}

/// Folds `incoming` into the base entry `existing`, field by field.
pub fn merge_vocab(existing: &mut Vocabulary, incoming: Vocabulary)
    ensures
        final(existing).id == old(existing).id,
        final(existing).spanish == (if is_blank(old(existing).spanish@) {
            incoming.spanish
        } else {
            old(existing).spanish
        }),
        final(existing).pos == (if is_blank(old(existing).pos@) {
            incoming.pos
        } else {
            old(existing).pos
        }),
        final(existing).gender == (if old(existing).gender is None {
            incoming.gender
        } else {
            old(existing).gender
        }),
        final(existing).english_gloss@ == string_field_merge(
            old(existing).english_gloss@,
            incoming.english_gloss@,
        ).0,
        final(existing).definition@ == definition_merge(
            old(existing).definition@,
            incoming.definition@,
        ),
        opt_text(final(existing).origin) == story_merge(
            opt_text(old(existing).origin),
            opt_text(incoming.origin),
        ),
        opt_text(final(existing).story) == story_merge(
            opt_text(old(existing).story),
            opt_text(incoming.story),
        ),
        final(existing).examples@ == union_pairs(old(existing).examples@, incoming.examples@),
        strings_view(final(existing).tags@) == union_texts(
            strings_view(old(existing).tags@),
            strings_view(incoming.tags@),
        ),
        strings_view(final(existing).source_files@) == union_texts(
            strings_view(old(existing).source_files@),
            strings_view(incoming.source_files@),
        ),
        opt_text(final(existing).notes) == notes_merge(
            notes_after_field(
                opt_text(old(existing).notes),
                "english_gloss"@,
                old(existing).english_gloss@,
                incoming.english_gloss@,
            ),
            opt_text(incoming.notes),
        ),
        final(existing).level == level_merge(old(existing).level, incoming.level),
        vocab_view(*final(existing)) == merge_v(vocab_view(*old(existing)), vocab_view(incoming)),
{
    let Vocabulary {
        spanish,
        pos,
        gender,
        english_gloss,
        definition,
        origin,
        story,
        examples,
        level,
        tags,
        source_files,
        notes,
        ..
    } = incoming;
    if blank(existing.spanish.as_str()) {
        existing.spanish = spanish;
    }
    if blank(existing.pos.as_str()) {
        existing.pos = pos;
    }
    if existing.gender.is_none() {
        existing.gender = gender;
    }
    let mut gloss_notes = existing.notes.take();
    merge_string_field(&mut existing.english_gloss, english_gloss.as_str(), "english_gloss", &mut gloss_notes);
    merge_definition_field(&mut existing.definition, definition.as_str());
    merge_optional_story(&mut existing.origin, origin);
    merge_optional_story(&mut existing.story, story);
    merge_examples(&mut existing.examples, examples);
    merge_tags(&mut existing.tags, tags);
    merge_sources(&mut existing.source_files, source_files);
    existing.notes = merge_notes(gloss_notes, notes);
    if existing.level == Level::UNSET && level != Level::UNSET {
        existing.level = level;
    }
}

/// The model of a lesson.
pub struct LessonV {
    pub id: Seq<char>,
    pub title: Seq<char>,
    pub nickname: Seq<char>,
    pub level: Level,
    pub unit: u32,
    pub lesson_number: u32,
    pub tags: Seq<Seq<char>>,
    pub steps: Seq<crate::models::LessonStep>,
    pub notes: Option<Seq<char>>,
    pub source_files: Seq<Seq<char>>,
}

pub open spec fn lesson_view(l: Lesson) -> LessonV {
    LessonV {
        id: l.id@,
        title: l.title@,
        nickname: l.nickname@,
        level: l.level,
        unit: l.unit,
        lesson_number: l.lesson_number,
        tags: strings_view(l.tags@),
        steps: l.steps@,
        notes: opt_text(l.notes),
        source_files: strings_view(l.source_files@),
    }
}

pub open spec fn lesson_views(s: Seq<Lesson>) -> Seq<LessonV> {
    Seq::new(s.len(), |i: int| lesson_view(s[i]))
}

/// The lesson `e` becomes once `i` is folded into it.
pub open spec fn merge_l(e: LessonV, i: LessonV) -> LessonV {
    LessonV {
        id: e.id,
        title: if is_blank(e.title) {
            i.title
        } else {
            e.title
        },
        nickname: if is_blank(e.nickname) {
            i.nickname
        } else {
            e.nickname
        },
        level: level_merge(e.level, i.level),
        unit: ordinal_merge(e.unit, i.unit),
        lesson_number: ordinal_merge(e.lesson_number, i.lesson_number),
        tags: union_texts(e.tags, i.tags),
        steps: if i.steps.len() > e.steps.len() {
            i.steps
        } else {
            e.steps
        },
        notes: notes_merge(e.notes, i.notes),
        source_files: union_texts(e.source_files, i.source_files),
    }
}

/// Folds `incoming` into the base lesson `existing`, field by field.
pub fn merge_lessons(existing: &mut Lesson, incoming: Lesson)
    ensures
        final(existing).id == old(existing).id,
        final(existing).title == (if is_blank(old(existing).title@) {
            incoming.title
        } else {
            old(existing).title
        }),
        final(existing).nickname == (if is_blank(old(existing).nickname@) {
            incoming.nickname
        } else {
            old(existing).nickname
        }),
        final(existing).level == level_merge(old(existing).level, incoming.level),
        final(existing).unit == ordinal_merge(old(existing).unit, incoming.unit),
        final(existing).lesson_number == ordinal_merge(
            old(existing).lesson_number,
            incoming.lesson_number,
        ),
        strings_view(final(existing).tags@) == union_texts(
            strings_view(old(existing).tags@),
            strings_view(incoming.tags@),
        ),
        strings_view(final(existing).source_files@) == union_texts(
            strings_view(old(existing).source_files@),
            strings_view(incoming.source_files@),
        ),
        opt_text(final(existing).notes) == notes_merge(
            opt_text(old(existing).notes),
            opt_text(incoming.notes),
        ),
        final(existing).steps == (if incoming.steps@.len() > old(existing).steps@.len() {
            incoming.steps
        } else {
            old(existing).steps
        }),
        lesson_view(*final(existing)) == merge_l(lesson_view(*old(existing)), lesson_view(incoming)),
{
    let Lesson { title, nickname, level, unit, lesson_number, tags, source_files, notes, steps, .. } =
        incoming;
    if blank(existing.title.as_str()) {
        existing.title = title;
    }
    if blank(existing.nickname.as_str()) {
        existing.nickname = nickname;
    }
    if existing.level == Level::UNSET && level != Level::UNSET {
        existing.level = level;
    }
    if existing.unit == UNASSIGNED && unit != UNASSIGNED {
        existing.unit = unit;
    }
    if existing.lesson_number == UNASSIGNED && lesson_number != UNASSIGNED {
        existing.lesson_number = lesson_number;
    }
    merge_tags(&mut existing.tags, tags);
    merge_sources(&mut existing.source_files, source_files);
    let prev_notes = existing.notes.take();
    existing.notes = merge_notes(prev_notes, notes);
    if steps.len() > existing.steps.len() {
        existing.steps = steps;
    }
}

} // verus!

verus! {

/// The identity key of a lesson: title, unit and number, or title and
/// nickname when both numbers are unassigned.
pub open spec fn lesson_key(l: Lesson) -> Seq<char> {
    lkey(lesson_view(l))
}

fn lesson_key_of(l: &Lesson) -> (r: String)
    ensures
        r@ == lesson_key(*l),
{
    let mut out = chars_of(crate::text::lowercase(l.title.as_str()).as_str());
    let bar = chars_of("|");
    crate::text::push_all(&mut out, &bar);
    if l.unit != UNASSIGNED || l.lesson_number != UNASSIGNED {
        push_numeral(&mut out, l.unit as usize);
        crate::text::push_all(&mut out, &bar);
        push_numeral(&mut out, l.lesson_number as usize);
    } else {
        let nick = chars_of(crate::text::lowercase(l.nickname.as_str()).as_str());
        crate::text::push_all(&mut out, &nick);
    }
    crate::text::string_of(&out)
}

/// The model of the duplicate groups: each key with its ids.
pub open spec fn groups_view(v: Seq<DuplicateGroup>) -> Seq<(Seq<char>, Seq<Seq<char>>)> {
    Seq::new(v.len(), |i: int| (v[i].key@, strings_view(v[i].ids@)))
}

/// The index of the first group under `k`, or -1.
pub open spec fn group_at(gs: Seq<(Seq<char>, Seq<Seq<char>>)>, k: Seq<char>) -> int
    decreases gs.len(),
{
    if gs.len() == 0 {
        -1
    } else if gs[0].0 == k {
        0
    } else {
        let r = group_at(gs.drop_first(), k);
        if r < 0 {
            -1
        } else {
            r + 1
        }
    }
}

/// Where a new group under `k` goes: before the first group with a greater key.
pub open spec fn slot_of(gs: Seq<(Seq<char>, Seq<Seq<char>>)>, k: Seq<char>) -> int
    decreases gs.len(),
{
    if gs.len() == 0 {
        0
    } else if crate::merge::key_lt(k, gs[0].0) {
        0
    } else {
        slot_of(gs.drop_first(), k) + 1
    }
}

/// The groups once the group under `k` exists (seeded with `base`), and its index.
pub open spec fn seed_group(gs: Seq<(Seq<char>, Seq<Seq<char>>)>, k: Seq<char>, base: Seq<char>) -> (
    Seq<(Seq<char>, Seq<Seq<char>>)>,
    int,
) {
    if group_at(gs, k) >= 0 {
        (gs, group_at(gs, k))
    } else {
        (gs.insert(slot_of(gs, k), (k, seq![base])), slot_of(gs, k))
    }
}

/// The groups once `item` joins the group under `k`, and whether that made
/// the group a cluster (its second id).
pub open spec fn group_added(
    gs: Seq<(Seq<char>, Seq<Seq<char>>)>,
    k: Seq<char>,
    base: Seq<char>,
    item: Seq<char>,
) -> (Seq<(Seq<char>, Seq<Seq<char>>)>, bool) {
    let s = seed_group(gs, k, base);
    let ids = s.0[s.1].1;
    if ids.contains(item) {
        (s.0, false)
    } else {
        (s.0.update(s.1, (k, ids.push(item))), ids.len() + 1 == 2)
    }
}

/// A counter raised by one when `b` holds, short of overflow.
pub open spec fn bump(n: usize, b: bool) -> usize {
    if b && n < usize::MAX {
        (n + 1) as usize
    } else {
        n
    }
}

/// The audit fields that folding records leaves alone.
pub open spec fn audit_rest(a: AuditLog) -> (usize, usize, usize, usize, Vec<String>, usize, Vec<String>, Vec<String>) {
    (
        a.total_files,
        a.conflict_blocks,
        a.vocab_count,
        a.lesson_count,
        a.level_unset,
        a.rejects,
        a.schema_failures,
        a.conflict_files,
    )
}

proof fn lemma_group_at(gs: Seq<(Seq<char>, Seq<Seq<char>>)>, k: Seq<char>, p: int)
    requires
        -1 <= p < gs.len(),
        p >= 0 ==> gs[p].0 == k,
        forall|q: int| 0 <= q < gs.len() && (p < 0 || q < p) ==> (#[trigger] gs[q]).0 != k,
    ensures
        group_at(gs, k) == p,
    decreases gs.len(),
{
    if gs.len() > 0 && p != 0 {
        let t = gs.drop_first();
        assert forall|q: int| 0 <= q < t.len() && (p - 1 < 0 || q < p - 1) implies (#[trigger] t[q]).0 != k by {
            assert(t[q] == gs[q + 1]);
        }
        if p > 0 {
            assert(t[p - 1] == gs[p]);
            lemma_group_at(t, k, p - 1);
        } else {
            lemma_group_at(t, k, -1);
        }
    }
}

proof fn lemma_group_at_found(gs: Seq<(Seq<char>, Seq<Seq<char>>)>, k: Seq<char>)
    ensures
        group_at(gs, k) < gs.len(),
        group_at(gs, k) >= 0 ==> gs[group_at(gs, k)].0 == k,
    decreases gs.len(),
{
    if gs.len() > 0 && gs[0].0 != k {
        lemma_group_at_found(gs.drop_first(), k);
    }
}

/// Group keys strictly ascend, so each cluster has one group.
pub open spec fn groups_wf(gs: Seq<(Seq<char>, Seq<Seq<char>>)>) -> bool {
    forall|i: int, j: int| 0 <= i < j < gs.len() ==> crate::merge::key_lt(#[trigger] gs[i].0, #[trigger] gs[j].0)
}

proof fn lemma_group_absent(gs: Seq<(Seq<char>, Seq<Seq<char>>)>, k: Seq<char>)
    requires
        group_at(gs, k) == -1,
    ensures
        forall|i: int| 0 <= i < gs.len() ==> (#[trigger] gs[i]).0 != k,
    decreases gs.len(),
{
    if gs.len() > 0 {
        lemma_group_absent(gs.drop_first(), k);
        assert forall|i: int| 0 <= i < gs.len() implies (#[trigger] gs[i]).0 != k by {
            if i > 0 {
                assert(gs[i] == gs.drop_first()[i - 1]);
            }
        }
    }
}

proof fn lemma_slot(gs: Seq<(Seq<char>, Seq<Seq<char>>)>, k: Seq<char>)
    ensures
        0 <= slot_of(gs, k) <= gs.len(),
        forall|i: int| 0 <= i < slot_of(gs, k) ==> !crate::merge::key_lt(k, (#[trigger] gs[i]).0),
        slot_of(gs, k) < gs.len() ==> crate::merge::key_lt(k, gs[slot_of(gs, k)].0),
    decreases gs.len(),
{
    if gs.len() > 0 && !crate::merge::key_lt(k, gs[0].0) {
        let t = gs.drop_first();
        lemma_slot(t, k);
        assert forall|i: int| 0 <= i < slot_of(gs, k) implies !crate::merge::key_lt(k, (#[trigger] gs[i]).0) by {
            if i > 0 {
                assert(gs[i] == t[i - 1]);
            }
        }
        if slot_of(gs, k) < gs.len() {
            assert(gs[slot_of(gs, k)] == t[slot_of(t, k)]);
        }
    }
}

/// Adding an id to a cluster keeps the groups ordered by key.
pub proof fn lemma_group_added_wf(
    gs: Seq<(Seq<char>, Seq<Seq<char>>)>,
    k: Seq<char>,
    base: Seq<char>,
    item: Seq<char>,
)
    requires
        groups_wf(gs),
    ensures
        groups_wf(group_added(gs, k, base, item).0),
{
    lemma_group_at_found(gs, k);
    let sd = seed_group(gs, k, base);
    if group_at(gs, k) < 0 {
        lemma_group_absent(gs, k);
        lemma_slot(gs, k);
        let at = slot_of(gs, k);
        assert forall|i: int| 0 <= i < at implies crate::merge::key_lt((#[trigger] gs[i]).0, k) by {
            crate::merge::lemma_key_lt_total(gs[i].0, k);
        }
        assert forall|i: int| at <= i < gs.len() implies crate::merge::key_lt(k, (#[trigger] gs[i]).0) by {
            if i > at {
                crate::merge::lemma_key_lt_trans(k, gs[at].0, gs[i].0);
            }
        }
        let ins = gs.insert(at, (k, seq![base]));
        assert forall|i: int, j: int| 0 <= i < j < ins.len() implies crate::merge::key_lt(#[trigger] ins[i].0, #[trigger] ins[j].0) by {
            if j < at {
                assert(ins[i] == gs[i] && ins[j] == gs[j]);
            } else if j == at {
                assert(ins[i] == gs[i]);
            } else if i < at {
                assert(ins[i] == gs[i] && ins[j] == gs[j - 1]);
                crate::merge::lemma_key_lt_trans(gs[i].0, k, gs[j - 1].0);
            } else if i == at {
                assert(ins[j] == gs[j - 1]);
            } else {
                assert(ins[i] == gs[i - 1] && ins[j] == gs[j - 1]);
            }
        }
    }
    let r = group_added(gs, k, base, item).0;
    assert(sd.0[sd.1].0 == k);
    assert forall|i: int| 0 <= i < r.len() implies (#[trigger] r[i]).0 == sd.0[i].0 by {}
    assert forall|i: int, j: int| 0 <= i < j < r.len() implies crate::merge::key_lt(#[trigger] r[i].0, #[trigger] r[j].0) by {
        assert(r[i].0 == sd.0[i].0 && r[j].0 == sd.0[j].0);
    }
}

/// The index of the group under `key`, if there is one.
fn find_group(groups: &Vec<DuplicateGroup>, key: &String) -> (r: Option<usize>)
    ensures
        match r {
            Some(g) => g < groups@.len() && group_at(groups_view(groups@), key@) == g,
            None => group_at(groups_view(groups@), key@) == -1,
        },
{
    let ghost gv = groups_view(groups@);
    let mut g: usize = 0;
    while g < groups.len()
        invariant
            gv == groups_view(groups@),
            g <= groups@.len(),
            forall|q: int| 0 <= q < g ==> (#[trigger] gv[q]).0 != key@,
        decreases groups@.len() - g,
    {
        if groups[g].key == *key {
            proof {
                lemma_group_at(gv, key@, g as int);
            }
            return Some(g);
        }
        g = g + 1;
    }
    proof {
        lemma_group_at(gv, key@, -1);
    }
    None
}

/// Where a new group under `key` goes so that groups stay ordered by key.
fn sorted_slot(groups: &Vec<DuplicateGroup>, key: &String) -> (r: usize)
    ensures
        r <= groups@.len(),
        r == slot_of(groups_view(groups@), key@),
{
    let ghost gv = groups_view(groups@);
    let k = chars_of(key.as_str());
    let mut g: usize = 0;
    assert(gv.skip(0) =~= gv);
    while g < groups.len()
        invariant
            gv == groups_view(groups@),
            k@ == key@,
            g <= groups@.len(),
            slot_of(gv, key@) == g + slot_of(gv.skip(g as int), key@),
        decreases groups@.len() - g,
    {
        assert(gv.skip(g as int)[0] == gv[g as int]);
        let other = chars_of(groups[g].key.as_str());
        if key_less(&k, &other) {
            return g;
        }
        assert(gv.skip(g as int).drop_first() =~= gv.skip(g + 1));
        g = g + 1;
    }
    g
}

/// The index of the identity key `key` among `keys`, if it is there.
fn find_vocab_key(keys: &Vec<(String, String, String)>, key: &(String, String, String)) -> (r: Option<usize>)
    ensures
        match r {
            Some(p) => p < keys@.len() && (keys@[p as int].0@, keys@[p as int].1@, keys@[p as int].2@) == (key.0@, key.1@, key.2@)
                && forall|q: int| 0 <= q < p ==> ((#[trigger] keys@[q]).0@, keys@[q].1@, keys@[q].2@) != (key.0@, key.1@, key.2@),
            None => forall|q: int| 0 <= q < keys@.len() ==> ((#[trigger] keys@[q]).0@, keys@[q].1@, keys@[q].2@) != (key.0@, key.1@, key.2@),
        },
{
    let mut p: usize = 0;
    while p < keys.len()
        invariant
            p <= keys@.len(),
            forall|q: int| 0 <= q < p ==> ((#[trigger] keys@[q]).0@, keys@[q].1@, keys@[q].2@) != (key.0@, key.1@, key.2@),
        decreases keys@.len() - p,
    {
        if keys[p].0 == key.0 && keys[p].1 == key.1 && keys[p].2 == key.2 {
            return Some(p);
        }
        p = p + 1;
    }
    None
}

/// Records that `item_id` was folded into the cluster `group_key`, seeded with
/// `base_id`; a cluster is counted once, when its second id arrives.
fn record_group(audit: &mut AuditLog, group_key: String, base_id: String, item_id: String)
    ensures
        groups_view(final(audit).duplicate_groups@) == group_added(
            groups_view(old(audit).duplicate_groups@),
            group_key@,
            base_id@,
            item_id@,
        ).0,
        final(audit).duplicate_clusters == bump(
            old(audit).duplicate_clusters,
            group_added(groups_view(old(audit).duplicate_groups@), group_key@, base_id@, item_id@).1,
        ),
        audit_rest(*final(audit)) == audit_rest(*old(audit)),
        groups_wf(groups_view(old(audit).duplicate_groups@)) ==> groups_wf(
            groups_view(final(audit).duplicate_groups@),
        ),
{
    let ghost g0 = groups_view(audit.duplicate_groups@);
    proof {
        if groups_wf(g0) {
            lemma_group_added_wf(g0, group_key@, base_id@, item_id@);
        }
    }
    let ghost k = group_key@;
    let ghost bid = base_id@;
    let ghost iid = item_id@;
    let ghost seeded = seed_group(g0, k, bid);
    proof {
        lemma_group_at_found(g0, k);
    }
    let g: usize = match find_group(&audit.duplicate_groups, &group_key) {
        Some(x) => x,
        None => {
            let at = sorted_slot(&audit.duplicate_groups, &group_key);
            let ids = vec![base_id];
            assert(strings_view(ids@) =~= seq![bid]);
            audit.duplicate_groups.insert(at, DuplicateGroup { key: group_key, ids });
            assert(groups_view(audit.duplicate_groups@) =~= g0.insert(at as int, (k, seq![bid])));
            at
        },
    };
    assert(groups_view(audit.duplicate_groups@) == seeded.0 && g as int == seeded.1);
    let ghost s0 = audit.duplicate_groups@;
    assert(groups_view(s0)[g as int] == seeded.0[seeded.1]);
    let mut group = audit.duplicate_groups.remove(g);
    assert(group.key@ == k);
    if !holds_text(&group.ids, &item_id) {
        let ghost prev_ids = strings_view(group.ids@);
        group.ids.push(item_id);
        assert(strings_view(group.ids@) =~= prev_ids.push(iid));
        if group.ids.len() == 2 && audit.duplicate_clusters < usize::MAX {
            audit.duplicate_clusters = audit.duplicate_clusters + 1;
        }
    }
    audit.duplicate_groups.insert(g, group);
    assert(audit.duplicate_groups@ =~= s0.update(g as int, group));
    assert(groups_view(audit.duplicate_groups@) =~= groups_view(s0).update(
        g as int,
        (group.key@, strings_view(group.ids@)),
    ));
}

/// Keys of the entries are pairwise distinct.
pub open spec fn vocab_keys_distinct(v: Seq<Vocabulary>) -> bool {
    forall|m1: int, m2: int|
        0 <= m1 < m2 < v.len() ==> vocab_key(#[trigger] v[m1]) != vocab_key(#[trigger] v[m2])
}

/// Some entry of `v` has identity key `k`.
pub open spec fn vocab_key_present(v: Seq<Vocabulary>, k: (Seq<char>, Seq<char>, Seq<char>)) -> bool {
    exists|m: int| 0 <= m < v.len() && vocab_key(#[trigger] v[m]) == k
}

/// Folds vocabulary entries that share an identity key into the first one
/// seen, in input order, and records each cluster in the audit log.
pub fn dedupe_vocab(audit: &mut AuditLog, items: Vec<Vocabulary>) -> (r: Vec<Vocabulary>)
    ensures
        vocab_views(r@) == fold_vocab(vocab_views(items@)),
        (groups_view(final(audit).duplicate_groups@), final(audit).duplicate_clusters) == vocab_audit(
            groups_view(old(audit).duplicate_groups@),
            old(audit).duplicate_clusters,
            vocab_views(items@),
        ),
        audit_rest(*final(audit)) == audit_rest(*old(audit)),
        groups_wf(groups_view(old(audit).duplicate_groups@)) ==> groups_wf(
            groups_view(final(audit).duplicate_groups@),
        ),
        r@.len() <= items@.len(),
        vocab_keys_distinct(r@),
        forall|j: int| 0 <= j < items@.len() ==> vocab_key_present(r@, vocab_key(#[trigger] items@[j])),
        forall|m: int| 0 <= m < r@.len() ==> exists|j: int| 0 <= j < items@.len() && (#[trigger] r@[m]).id == items@[j].id,
{
    let ghost orig = items@;
    let total = items.len();
    let mut rest = items;
    let mut bases: Vec<Vocabulary> = Vec::new();
    let mut keys: Vec<(String, String, String)> = Vec::new();
    let mut done: usize = 0;
    while rest.len() > 0
        invariant
            orig == items@,
            total == orig.len(),
            done <= orig.len(),
            rest@ == orig.skip(done as int),
            keys@.len() == bases@.len(),
            bases@.len() <= done,
            vocab_views(bases@) == fold_vocab(vocab_views(orig).take(done as int)),
            (groups_view(audit.duplicate_groups@), audit.duplicate_clusters) == vocab_audit(
                groups_view(old(audit).duplicate_groups@),
                old(audit).duplicate_clusters,
                vocab_views(orig).take(done as int),
            ),
            audit_rest(*audit) == audit_rest(*old(audit)),
            groups_wf(groups_view(old(audit).duplicate_groups@)) ==> groups_wf(
                groups_view(audit.duplicate_groups@),
            ),
            forall|m: int|
                0 <= m < keys@.len() ==> ((#[trigger] keys@[m]).0@, keys@[m].1@, keys@[m].2@)
                    == vocab_key(bases@[m]),
            vocab_keys_distinct(bases@),
            forall|j: int| 0 <= j < done ==> vocab_key_present(bases@, vocab_key(#[trigger] orig[j])),
            forall|m: int| 0 <= m < bases@.len() ==> exists|j: int| 0 <= j < orig.len() && (#[trigger] bases@[m]).id == orig[j].id,
        decreases rest@.len(),
    {
        assert(orig.skip(done as int)[0] == orig[done as int]);
        assert(done < orig.len());
        let item = rest.remove(0);
        assert(rest@ =~= orig.skip(done + 1));
        let key = item.dedup_key();
        let found = find_vocab_key(&keys, &key);
        let ghost vs = vocab_views(orig);
        let ghost acc = vocab_views(bases@);
        let ghost it = vocab_view(item);
        assert(vs.take(done + 1).drop_last() =~= vs.take(done as int));
        assert(vs.take(done + 1).last() == it);
        assert(vkey(it) == vocab_key(item));
        assert forall|q: int| 0 <= q < acc.len() implies vkey(#[trigger] acc[q]) == vocab_key(bases@[q]) by {}
        if let Some(p) = found {
            proof {
                lemma_first_vkey(acc, vkey(it), p as int);
            }
            let ghost prev = bases@;
            let base_id = bases[p].id.clone();
            let item_id = item.id.clone();
            let group_key = vocab_group_key(&key);
            let mut b = bases.remove(p);
            merge_vocab(&mut b, item);
            bases.insert(p, b);
            assert(bases@ =~= prev.update(p as int, b));
            assert(vocab_views(bases@) =~= acc.update(p as int, merge_v(acc[p as int], it)));
            assert(vocab_key(b) == vocab_key(prev[p as int]));
            assert forall|m: int| 0 <= m < bases@.len() implies vocab_key(#[trigger] bases@[m]) == vocab_key(prev[m]) by {}
            assert(vocab_keys_distinct(bases@));
            assert forall|m: int| 0 <= m < bases@.len() implies exists|j: int| 0 <= j < orig.len() && (#[trigger] bases@[m]).id == orig[j].id by {
                assert(bases@[m].id == prev[m].id);
            }
            assert forall|j: int| 0 <= j <= done implies vocab_key_present(bases@, vocab_key(#[trigger] orig[j])) by {
                if j < done {
                    let m = choose|m: int| 0 <= m < prev.len() && vocab_key(#[trigger] prev[m]) == vocab_key(orig[j]);
                    assert(vocab_key(bases@[m]) == vocab_key(prev[m]));
                } else {
                    assert(vocab_key(bases@[p as int]) == vocab_key(orig[j]));
                }
            }
            record_group(audit, group_key, base_id, item_id);
        } else {
            let ghost prev = bases@;
            assert forall|q: int| 0 <= q < acc.len() && (-1int < 0 || q < -1) implies vkey(#[trigger] acc[q]) != vkey(it) by {
                assert(((keys@[q]).0@, keys@[q].1@, keys@[q].2@) == vocab_key(bases@[q]));
                assert(vkey(acc[q]) == vocab_key(bases@[q]));
            }
            proof {
                lemma_first_vkey(acc, vkey(it), -1);
            }
            assert forall|q: int| 0 <= q < prev.len() implies vocab_key(#[trigger] prev[q]) != vocab_key(item) by {
                assert(((keys@[q]).0@, keys@[q].1@, keys@[q].2@) == vocab_key(prev[q]));
            }
            bases.push(item);
            keys.push(key);
            assert(vocab_views(bases@) =~= acc.push(it));
            assert(vocab_keys_distinct(bases@)) by {
                assert forall|m1: int, m2: int| 0 <= m1 < m2 < bases@.len() implies vocab_key(#[trigger] bases@[m1]) != vocab_key(#[trigger] bases@[m2]) by {
                    assert(bases@[m1] == prev[m1]);
                    if m2 < prev.len() {
                        assert(bases@[m2] == prev[m2]);
                    } else {
                        assert(bases@[m2] == item);
                    }
                }
            }
            assert forall|m: int| 0 <= m < bases@.len() implies exists|j: int| 0 <= j < orig.len() && (#[trigger] bases@[m]).id == orig[j].id by {
                if m < prev.len() {
                    assert(bases@[m] == prev[m]);
                } else {
                    assert(bases@[m] == orig[done as int]);
                }
            }
            assert forall|j: int| 0 <= j <= done implies vocab_key_present(bases@, vocab_key(#[trigger] orig[j])) by {
                if j < done {
                    let m = choose|m: int| 0 <= m < prev.len() && vocab_key(#[trigger] prev[m]) == vocab_key(orig[j]);
                    assert(bases@[m] == prev[m]);
                } else {
                    assert(bases@[prev.len() as int] == item);
                }
            }
        }
        done = done + 1;
    }
    assert(vocab_views(orig).take(done as int) =~= vocab_views(orig));
    assert(vocab_views(orig) == vocab_views(items@));
    assert forall|m: int| 0 <= m < bases@.len() implies exists|j: int| 0 <= j < items@.len() && (#[trigger] bases@[m]).id == items@[j].id by {
        let j = choose|j: int| 0 <= j < orig.len() && bases@[m].id == orig[j].id;
        assert(items@[j] == orig[j]);
    }
    bases
}

/// The name of the cluster of vocabulary entries with identity key `k`.
pub open spec fn vgroup_key(k: (Seq<char>, Seq<char>, Seq<char>)) -> Seq<char> {
    "vocab:"@ + k.0 + ":"@ + k.1 + ":"@ + k.2
}

/// The duplicate groups and cluster count after folding `items`, from `g0` and `c0`.
pub open spec fn vocab_audit(g0: Seq<(Seq<char>, Seq<Seq<char>>)>, c0: usize, items: Seq<VocabV>) -> (
    Seq<(Seq<char>, Seq<Seq<char>>)>,
    usize,
)
    decreases items.len(),
{
    if items.len() == 0 {
        (g0, c0)
    } else {
        let before = vocab_audit(g0, c0, items.drop_last());
        let acc = fold_vocab(items.drop_last());
        let it = items.last();
        let p = first_vkey(acc, vkey(it));
        if p >= 0 {
            let added = group_added(before.0, vgroup_key(vkey(it)), acc[p].id, it.id);
            (added.0, bump(before.1, added.1))
        } else {
            before
        }
    }
}

fn vocab_group_key(key: &(String, String, String)) -> (r: String)
    ensures
        r@ == vgroup_key((key.0@, key.1@, key.2@)),
{
    let a = concat_text("vocab:", key.0.as_str());
    let b = concat_text(a.as_str(), ":");
    let c = concat_text(b.as_str(), key.1.as_str());
    let d = concat_text(c.as_str(), ":");
    concat_text(d.as_str(), key.2.as_str())
}

} // verus!

verus! {

/// The identity key of a lesson's model.
/// Titles and nicknames are compared without regard to case.
pub open spec fn lkey(l: LessonV) -> Seq<char> {
    if l.unit != UNASSIGNED || l.lesson_number != UNASSIGNED {
        lower_of(l.title) + "|"@ + numeral(l.unit as nat) + "|"@ + numeral(l.lesson_number as nat)
    } else {
        lower_of(l.title) + "|"@ + lower_of(l.nickname)
    }
}

/// The index of the first group under key `k`, or -1.
pub open spec fn first_group(acc: Seq<(Seq<char>, LessonV)>, k: Seq<char>) -> int
    decreases acc.len(),
{
    if acc.len() == 0 {
        -1
    } else if acc[0].0 == k {
        0
    } else {
        let r = first_group(acc.drop_first(), k);
        if r < 0 {
            -1
        } else {
            r + 1
        }
    }
}

/// The groups that folding `items` left to right leaves, each under the key
/// of the lesson that started it.
pub open spec fn fold_lessons(items: Seq<LessonV>) -> Seq<(Seq<char>, LessonV)>
    decreases items.len(),
{
    if items.len() == 0 {
        seq![]
    } else {
        let acc = fold_lessons(items.drop_last());
        let k = lkey(items.last());
        let p = first_group(acc, k);
        if p >= 0 {
            acc.update(p, (k, merge_l(acc[p].1, items.last())))
        } else {
            acc.push((k, items.last()))
        }
    }
}

proof fn lemma_first_group(acc: Seq<(Seq<char>, LessonV)>, k: Seq<char>, p: int)
    requires
        -1 <= p < acc.len(),
        p >= 0 ==> acc[p].0 == k,
        forall|q: int| 0 <= q < acc.len() && (p < 0 || q < p) ==> (#[trigger] acc[q]).0 != k,
    ensures
        first_group(acc, k) == p,
    decreases acc.len(),
{
    if acc.len() > 0 && p != 0 {
        let t = acc.drop_first();
        assert forall|q: int| 0 <= q < t.len() && (p - 1 < 0 || q < p - 1) implies (#[trigger] t[q]).0 != k by {
            assert(t[q] == acc[q + 1]);
        }
        if p > 0 {
            assert(t[p - 1] == acc[p]);
            lemma_first_group(t, k, p - 1);
        } else {
            lemma_first_group(t, k, -1);
        }
    }
}

/// The duplicate groups and cluster count after folding lessons, from `g0` and `c0`.
pub open spec fn lesson_audit(g0: Seq<(Seq<char>, Seq<Seq<char>>)>, c0: usize, items: Seq<LessonV>) -> (
    Seq<(Seq<char>, Seq<Seq<char>>)>,
    usize,
)
    decreases items.len(),
{
    if items.len() == 0 {
        (g0, c0)
    } else {
        let before = lesson_audit(g0, c0, items.drop_last());
        let acc = fold_lessons(items.drop_last());
        let it = items.last();
        let p = first_group(acc, lkey(it));
        if p >= 0 {
            let added = group_added(before.0, "lesson:"@ + lkey(it), acc[p].1.id, it.id);
            (added.0, bump(before.1, added.1))
        } else {
            before
        }
    }
}

/// The identity keys of a run of lessons.
pub open spec fn lesson_keys(s: Seq<Lesson>) -> Seq<Seq<char>> {
    Seq::new(s.len(), |i: int| lesson_key(s[i]))
}

/// Folds lessons that share an identity key into the first one seen, in input
/// order, and records each cluster in the audit log. One lesson comes out per
/// distinct key.
pub fn dedupe_lessons(audit: &mut AuditLog, items: Vec<Lesson>) -> (r: Vec<Lesson>)
    ensures
        lesson_views(r@) == Seq::new(
            fold_lessons(lesson_views(items@)).len(),
            |i: int| fold_lessons(lesson_views(items@))[i].1,
        ),
        (groups_view(final(audit).duplicate_groups@), final(audit).duplicate_clusters) == lesson_audit(
            groups_view(old(audit).duplicate_groups@),
            old(audit).duplicate_clusters,
            lesson_views(items@),
        ),
        audit_rest(*final(audit)) == audit_rest(*old(audit)),
        groups_wf(groups_view(old(audit).duplicate_groups@)) ==> groups_wf(
            groups_view(final(audit).duplicate_groups@),
        ),
        r@.len() == union_texts(seq![], lesson_keys(items@)).len(),
        forall|m: int|
            0 <= m < r@.len() ==> exists|j: int|
                0 <= j < items@.len() && (#[trigger] r@[m]).id == items@[j].id,
{
    let ghost orig = items@;
    let total = items.len();
    let mut rest = items;
    let mut bases: Vec<Lesson> = Vec::new();
    let mut keys: Vec<String> = Vec::new();
    let mut done: usize = 0;
    assert(lesson_keys(orig).take(0) =~= Seq::<Seq<char>>::empty());
    assert(strings_view(keys@) =~= Seq::<Seq<char>>::empty());
    while rest.len() > 0
        invariant
            orig == items@,
            total == orig.len(),
            done <= orig.len(),
            rest@ == orig.skip(done as int),
            keys@.len() == bases@.len(),
            strings_view(keys@) == union_texts(seq![], lesson_keys(orig).take(done as int)),
            fold_lessons(lesson_views(orig).take(done as int)).len() == bases@.len(),
            (groups_view(audit.duplicate_groups@), audit.duplicate_clusters) == lesson_audit(
                groups_view(old(audit).duplicate_groups@),
                old(audit).duplicate_clusters,
                lesson_views(orig).take(done as int),
            ),
            audit_rest(*audit) == audit_rest(*old(audit)),
            groups_wf(groups_view(old(audit).duplicate_groups@)) ==> groups_wf(
                groups_view(audit.duplicate_groups@),
            ),
            forall|m: int|
                0 <= m < bases@.len() ==> (#[trigger] fold_lessons(lesson_views(orig).take(done as int))[m]) == (
                    keys@[m]@,
                    lesson_view(bases@[m]),
                ),
            forall|m: int|
                0 <= m < bases@.len() ==> exists|j: int|
                    0 <= j < orig.len() && (#[trigger] bases@[m]).id == orig[j].id,
        decreases rest@.len(),
    {
        assert(orig.skip(done as int)[0] == orig[done as int]);
        assert(done < orig.len());
        let item = rest.remove(0);
        assert(rest@ =~= orig.skip(done + 1));
        let key = lesson_key_of(&item);
        let ghost ks = lesson_keys(orig);
        assert(ks.take(done + 1).drop_last() =~= ks.take(done as int));
        assert(ks.take(done + 1).last() == key@);
        let found = find_text(&keys, &key);
        let ghost lv = lesson_views(orig);
        let ghost fo = fold_lessons(lv.take(done as int));
        let ghost it = lesson_view(item);
        let ghost pkeys = keys@;
        assert(lv.take(done + 1).drop_last() =~= lv.take(done as int));
        assert(lv.take(done + 1).last() == it);
        assert(lkey(it) == key@);
        if let Some(p) = found {
            assert(strings_view(keys@)[p as int] == key@);
            assert forall|q: int| 0 <= q < fo.len() && (p < 0 || q < p) implies (#[trigger] fo[q]).0 != key@ by {
                assert(fo[q].0 == keys@[q]@);
            }
            proof {
                lemma_first_group(fo, key@, p as int);
            }
            let ghost prev = bases@;
            let base_id = bases[p].id.clone();
            let item_id = item.id.clone();
            let group_key = concat_text("lesson:", key.as_str());
            let mut b = bases.remove(p);
            merge_lessons(&mut b, item);
            bases.insert(p, b);
            assert(bases@ =~= prev.update(p as int, b));
            assert(fold_lessons(lv.take(done + 1)) == fo.update(p as int, (key@, merge_l(fo[p as int].1, it))));
            assert forall|m: int| 0 <= m < bases@.len() implies (#[trigger] fold_lessons(lv.take(done + 1))[m]) == (
                keys@[m]@,
                lesson_view(bases@[m]),
            ) by {
                if m != p {
                    assert(bases@[m] == prev[m]);
                }
            }
            assert forall|m: int| 0 <= m < bases@.len() implies exists|j: int|
                0 <= j < orig.len() && (#[trigger] bases@[m]).id == orig[j].id by {
                assert(bases@[m].id == prev[m].id);
            }
            record_group(audit, group_key, base_id, item_id);
        } else {
            assert forall|q: int| 0 <= q < fo.len() && (-1int < 0 || q < -1) implies (#[trigger] fo[q]).0 != key@ by {
                assert(fo[q].0 == keys@[q]@);
                assert(strings_view(keys@)[q] == keys@[q]@);
            }
            proof {
                lemma_first_group(fo, key@, -1);
            }
            let ghost prev = bases@;
            let ghost kprev = strings_view(keys@);
            let ghost kk = key@;
            bases.push(item);
            keys.push(key);
            assert(fold_lessons(lv.take(done + 1)) == fo.push((kk, it)));
            assert forall|m: int| 0 <= m < bases@.len() implies (#[trigger] fold_lessons(lv.take(done + 1))[m]) == (
                keys@[m]@,
                lesson_view(bases@[m]),
            ) by {
                if m < prev.len() {
                    assert(bases@[m] == prev[m]);
                    assert(keys@[m] == pkeys[m]);
                }
            }
            assert(strings_view(keys@) =~= kprev.push(ks[done as int]));
            assert forall|m: int| 0 <= m < bases@.len() implies exists|j: int|
                0 <= j < orig.len() && (#[trigger] bases@[m]).id == orig[j].id by {
                if m < prev.len() {
                    assert(bases@[m] == prev[m]);
                } else {
                    assert(bases@[m] == orig[done as int]);
                }
            }
        }
        done = done + 1;
    }
    assert(lesson_keys(orig).take(done as int) =~= lesson_keys(orig));
    assert(lesson_views(orig).take(done as int) =~= lesson_views(orig));
    assert(lesson_views(orig) == lesson_views(items@));
    assert(lesson_views(bases@) =~= Seq::new(
        fold_lessons(lesson_views(items@)).len(),
        |i: int| fold_lessons(lesson_views(items@))[i].1,
    ));
    assert forall|m: int| 0 <= m < bases@.len() implies exists|j: int|
        0 <= j < items@.len() && (#[trigger] bases@[m]).id == items@[j].id by {
        let j = choose|j: int| 0 <= j < orig.len() && bases@[m].id == orig[j].id;
        assert(items@[j] == orig[j]);
    }
    bases
}

} // verus!
