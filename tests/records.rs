use corpus_heal::models::{
    AuditLog, ExamplePair, Lesson, LessonStep, LessonStepExamples, Level, Vocabulary,
};
use corpus_heal::records::{
    append_note, dedupe_lessons, dedupe_vocab, merge_definition_field, merge_examples,
    merge_lessons, merge_notes, merge_optional_story, merge_sources, merge_string_field,
    merge_tags, merge_vocab,
};

fn s(x: &str) -> String {
    x.to_string()
}

fn pair(es: &str, en: &str) -> ExamplePair {
    ExamplePair { es: s(es), en: s(en) }
}

fn vocab(id: &str, spanish: &str, gloss: &str) -> Vocabulary {
    Vocabulary {
        id: s(id),
        spanish: s(spanish),
        pos: s("noun"),
        gender: Some(s("feminine")),
        english_gloss: s(gloss),
        definition: s("a dwelling"),
        origin: None,
        story: None,
        examples: vec![pair("la casa", "the house")],
        level: Level::UNSET,
        tags: Vec::new(),
        source_files: vec![s("a.json")],
        notes: None,
    }
}

fn lesson(id: &str, title: &str, unit: u32, number: u32) -> Lesson {
    Lesson {
        id: s(id),
        title: s(title),
        nickname: s("nick"),
        level: Level::A1,
        unit,
        lesson_number: number,
        tags: Vec::new(),
        steps: vec![LessonStep::EnglishAnchor { line: s("hello") }],
        notes: None,
        source_files: Vec::new(),
    }
}

#[test]
fn level_order_and_parse() {
    assert_eq!(Level::A1.order(), 1);
    assert_eq!(Level::C2.order(), 6);
    assert_eq!(Level::UNSET.order(), 7);
    assert_eq!(Level::parse(" b2 "), Some(Level::B2));
    assert_eq!(Level::parse("unset"), Some(Level::UNSET));
    assert_eq!(Level::parse("D1"), None);
}

#[test]
fn step_validation() {
    assert!(LessonStep::EnglishAnchor { line: s("x") }.validate().is_ok());
    assert_eq!(
        LessonStep::SystemLogic { line: s("  ") }.validate(),
        Err(s("Lesson step line must be non-empty"))
    );
    assert!(LessonStep::MeaningDepth { origin: None, story: None }.validate().is_ok());
    assert_eq!(
        LessonStep::Examples(LessonStepExamples { items: Vec::new() }).validate(),
        Err(s("Examples must contain at least one item"))
    );
}

#[test]
fn lesson_validation_reports_first_problem() {
    let mut l = lesson("l1", "Greetings", 1, 2);
    assert!(l.validate().is_ok());
    l.steps.push(LessonStep::SpanishEntry { line: s("") });
    assert_eq!(l.validate(), Err(s("Lesson step line must be non-empty")));
    l.nickname = s(" ");
    assert_eq!(l.validate(), Err(s("Lesson nickname is required")));
    l.id = s("");
    assert_eq!(l.validate(), Err(s("Lesson id is required")));
    let mut e = lesson("l2", "T", 1, 1);
    e.steps.clear();
    assert_eq!(e.validate(), Err(s("Lesson must contain steps")));
}

#[test]
fn vocabulary_validation() {
    let mut v = vocab("v1", "casa", "house");
    assert!(v.validate().is_ok());
    v.examples.clear();
    assert_eq!(v.validate(), Err(s("examples are required")));
    v.definition = s("");
    assert_eq!(v.validate(), Err(s("definition is required")));
    v.pos = s(" ");
    assert_eq!(v.validate(), Err(s("pos is required")));
}

#[test]
fn keys_of_records() {
    let v = vocab("v1", "Casa", "house");
    assert_eq!(v.dedup_key(), (s("casa"), s("noun"), s("feminine")));
    let mut w = vocab("v2", "PAN", "bread");
    w.gender = None;
    assert_eq!(w.dedup_key(), (s("pan"), s("noun"), s("null")));
    assert_eq!(v.sort_key(), (7, s("v1")));
    assert_eq!(lesson("l9", "T", 3, 4).sort_key(), (1, 3, 4, s("l9")));
    assert_eq!(
        pair("  La   Casa ", "The\tHOUSE").normalize_key(),
        (s("la casa"), s("the house"))
    );
}

#[test]
fn audit_records_unset_ids() {
    let mut audit = AuditLog::default();
    audit.record_unset("x1");
    audit.record_unset("x2");
    assert_eq!(audit.level_unset, vec![s("x1"), s("x2")]);
}

#[test]
fn tags_union_into_one_record() {
    let mut audit = AuditLog::default();
    let first = vocab("v1", "casa", "house");
    let mut second = vocab("v2", "casa", "house");
    second.tags = vec![s("travel")];
    let out = dedupe_vocab(&mut audit, vec![first, second]);
    assert_eq!(out.len(), 1);
    assert_eq!(out[0].tags, vec![s("travel")]);
    assert_eq!(out[0].id, "v1");
    assert_eq!(audit.duplicate_groups.len(), 1);
    assert_eq!(audit.duplicate_groups[0].key, "vocab:casa:noun:feminine");
    assert_eq!(audit.duplicate_groups[0].ids.len(), 2);
    assert_eq!(audit.duplicate_clusters, 1);
}

#[test]
fn fold_order_changes_the_note() {
    let mut a = vocab("v1", "gato", "cat");
    let b = vocab("v2", "gato", "dog");
    merge_vocab(&mut a, b);
    assert_eq!(a.english_gloss, "cat");
    assert_eq!(a.notes, Some(s("ALT english_gloss => dog")));

    let mut b2 = vocab("v2", "gato", "dog");
    let a2 = vocab("v1", "gato", "cat");
    merge_vocab(&mut b2, a2);
    assert_eq!(b2.english_gloss, "dog");
    assert_eq!(b2.notes, Some(s("ALT english_gloss => cat")));
}

#[test]
fn distinct_keys_stay_apart() {
    let mut audit = AuditLog::default();
    let out = dedupe_vocab(
        &mut audit,
        vec![vocab("v1", "casa", "house"), vocab("v2", "perro", "dog"), vocab("v3", "CASA", "home")],
    );
    assert_eq!(out.len(), 2);
    assert_eq!(audit.duplicate_clusters, 1);
    let casa = out.iter().find(|v| v.id == "v1").unwrap();
    assert_eq!(casa.english_gloss, "house");
    assert_eq!(casa.notes, Some(s("ALT english_gloss => home")));
}

#[test]
fn lessons_fold_by_title_and_numbers() {
    let mut audit = AuditLog::default();
    let mut second = lesson("l2", "Greetings", 1, 2);
    second.level = Level::B1;
    second.steps.push(LessonStep::SystemLogic { line: s("more") });
    let out = dedupe_lessons(
        &mut audit,
        vec![lesson("l1", "Greetings", 1, 2), second, lesson("l3", "Greetings", 1, 3)],
    );
    assert_eq!(out.len(), 2);
    let first = out.iter().find(|l| l.id == "l1").unwrap();
    assert_eq!(first.level, Level::A1);
    assert_eq!(first.steps.len(), 2);
    assert_eq!(audit.duplicate_groups[0].key, "lesson:greetings|1|2");
    assert_eq!(audit.duplicate_clusters, 1);
}

#[test]
fn unassigned_numbers_key_by_nickname() {
    let mut audit = AuditLog::default();
    let mut a = lesson("l1", "Intro", 9999, 9999);
    a.level = Level::UNSET;
    let mut b = lesson("l2", "Intro", 9999, 9999);
    b.level = Level::C1;
    let out = dedupe_lessons(&mut audit, vec![a, b]);
    assert_eq!(out.len(), 1);
    assert_eq!(out[0].level, Level::C1);
    assert_eq!(audit.duplicate_groups[0].key, "lesson:intro|nick");
}

#[test]
fn lesson_ordinals_fill_from_incoming() {
    let mut a = lesson("l1", "T", 9999, 4);
    let mut b = lesson("l2", "T", 7, 9999);
    b.notes = Some(s("extra"));
    b.tags = vec![s("t1")];
    merge_lessons(&mut a, b);
    assert_eq!(a.unit, 7);
    assert_eq!(a.lesson_number, 4);
    assert_eq!(a.notes, Some(s("extra")));
    assert_eq!(a.tags, vec![s("t1")]);
}

#[test]
fn definition_policy() {
    let mut d = s("  ");
    merge_definition_field(&mut d, "new");
    assert_eq!(d, "new");
    merge_definition_field(&mut d, "new");
    assert_eq!(d, "new");
    merge_definition_field(&mut d, "other");
    assert_eq!(d, "new\n\n— MERGED VARIANT —\n\nother");
    merge_definition_field(&mut d, " ");
    assert_eq!(d, "new\n\n— MERGED VARIANT —\n\nother");
}

#[test]
fn short_field_policy() {
    let mut notes = None;
    let mut t = s("cat");
    merge_string_field(&mut t, "kitten", "english_gloss", &mut notes);
    assert_eq!(t, "kitten");
    assert_eq!(notes, Some(s("ALT english_gloss => cat")));
    merge_string_field(&mut t, "kit", "english_gloss", &mut notes);
    assert_eq!(t, "kitten");
    assert_eq!(notes, Some(s("ALT english_gloss => cat\nALT english_gloss => kit")));
    merge_string_field(&mut t, "", "english_gloss", &mut notes);
    assert_eq!(t, "kitten");
    let mut blank = s("");
    merge_string_field(&mut blank, "x", "f", &mut notes);
    assert_eq!(blank, "x");
}

#[test]
fn blank_alternatives_leave_no_note() {
    let mut notes = Some(s("n"));
    append_note(&mut notes, "f", s("  "));
    assert_eq!(notes, Some(s("n")));
    append_note(&mut notes, "f", s("v"));
    assert_eq!(notes, Some(s("n\nALT f => v")));
}

#[test]
fn story_policy() {
    let mut t = None;
    merge_optional_story(&mut t, Some(s("a")));
    assert_eq!(t, Some(s("a")));
    merge_optional_story(&mut t, Some(s(" a ")));
    assert_eq!(t, Some(s("a")));
    merge_optional_story(&mut t, Some(s("b")));
    assert_eq!(t, Some(s("a\n\n— MERGED VARIANT —\n\nb")));
    merge_optional_story(&mut t, None);
    assert_eq!(t, Some(s("a\n\n— MERGED VARIANT —\n\nb")));
    let mut e = Some(s(" "));
    merge_optional_story(&mut e, Some(s("c")));
    assert_eq!(e, Some(s("c")));
}

#[test]
fn set_policies() {
    let mut tags = vec![s("a"), s("b")];
    merge_tags(&mut tags, vec![s("b"), s("C"), s("c"), s("C")]);
    assert_eq!(tags, vec![s("a"), s("b"), s("C"), s("c")]);
    let mut src = vec![s("x.json")];
    merge_sources(&mut src, vec![s("x.json"), s("y.json")]);
    assert_eq!(src, vec![s("x.json"), s("y.json")]);
}

#[test]
fn example_policy() {
    let mut ex = vec![pair("Hola  mundo", "Hello world")];
    merge_examples(
        &mut ex,
        vec![pair("hola mundo", "HELLO WORLD"), pair("Adiós", "Bye"), pair("adiós", "bye")],
    );
    assert_eq!(ex, vec![pair("Hola  mundo", "Hello world"), pair("Adiós", "Bye")]);
}

#[test]
fn notes_policy() {
    assert_eq!(merge_notes(Some(s("abc")), Some(s("b"))), Some(s("abc")));
    assert_eq!(merge_notes(Some(s("abc")), Some(s("d"))), Some(s("abc\nd")));
    assert_eq!(merge_notes(None, Some(s("d"))), Some(s("d")));
    assert_eq!(merge_notes(Some(s("a")), None), Some(s("a")));
    assert_eq!(merge_notes(None, None), None);
}

#[test]
fn definition_ignores_surrounding_whitespace() {
    let mut d = s("a definition");
    merge_definition_field(&mut d, "  a definition \n");
    assert_eq!(d, "a definition");
}

#[test]
fn repeated_alternatives_are_noted_once() {
    let mut notes = None;
    append_note(&mut notes, "english_gloss", s("dog"));
    append_note(&mut notes, "english_gloss", s("dog"));
    assert_eq!(notes, Some(s("ALT english_gloss => dog")));
}

#[test]
fn duplicate_groups_are_kept_in_key_order() {
    let mut audit = AuditLog::default();
    dedupe_vocab(
        &mut audit,
        vec![vocab("v1", "zorro", "fox"), vocab("v2", "zorro", "fox"), vocab("v3", "ajo", "garlic"), vocab("v4", "ajo", "garlic")],
    );
    dedupe_lessons(&mut audit, vec![lesson("l1", "T", 1, 1), lesson("l2", "T", 1, 1)]);
    let keys: Vec<&str> = audit.duplicate_groups.iter().map(|g| g.key.as_str()).collect();
    assert_eq!(keys, vec!["lesson:t|1|1", "vocab:ajo:noun:feminine", "vocab:zorro:noun:feminine"]);
    assert_eq!(audit.duplicate_clusters, 3);
}

#[test]
fn lesson_titles_match_without_case() {
    let mut audit = AuditLog::default();
    let mut second = lesson("l2", "greetings", 1, 1);
    second.tags = vec![s("travel")];
    let out = dedupe_lessons(&mut audit, vec![lesson("l1", "Greetings", 1, 1), second]);
    assert_eq!(out.len(), 1);
    assert_eq!(out[0].title, "Greetings");
    assert_eq!(out[0].tags, vec![s("travel")]);
    assert_eq!(audit.duplicate_groups.len(), 1);
    assert_eq!(audit.duplicate_groups[0].key, "lesson:greetings|1|1");
    assert_eq!(audit.duplicate_groups[0].ids, vec![s("l1"), s("l2")]);
    assert_eq!(audit.duplicate_clusters, 1);
}

#[test]
fn blank_title_and_nickname_take_incoming() {
    let mut a = lesson("l1", " ", 1, 1);
    a.nickname = s("");
    let mut b = lesson("l2", "Real", 1, 1);
    b.nickname = s("real-nick");
    merge_lessons(&mut a, b);
    assert_eq!(a.title, "Real");
    assert_eq!(a.nickname, "real-nick");
    assert_eq!(a.id, "l1");
}

#[test]
fn clusters_count_once_per_group() {
    let mut audit = AuditLog::default();
    let out = dedupe_vocab(
        &mut audit,
        vec![vocab("v1", "casa", "house"), vocab("v2", "casa", "house"), vocab("v2", "casa", "house"), vocab("v3", "casa", "house")],
    );
    assert_eq!(out.len(), 1);
    assert_eq!(audit.duplicate_groups[0].ids, vec![s("v1"), s("v2"), s("v3")]);
    assert_eq!(audit.duplicate_clusters, 1);
    assert_eq!(audit.total_files, 0);
}
