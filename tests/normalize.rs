use corpus_heal::models::{ExamplePair, LessonStep, Level};
use corpus_heal::normalize::parse_and_normalize;

fn run(content: &str) -> corpus_heal::normalize::NormalizedOutput {
    parse_and_normalize("content/x.json", "content/x.json", "content/b1/x.json", content)
}

#[test]
fn vocabulary_entry_is_built() {
    let out = run(
        "{\"spanish\": \" casa \", \"pos\": \"noun\", \"gender\": \"F\", \"english\": \"house\", \"def\": \"a home\", \"examples\": [\"la casa | the house\", [\"una casa\", \"a house\"]], \"level\": \"a2\", \"tags\": \"home, , place\"}",
    );
    assert_eq!(out.vocabulary.len(), 1);
    assert!(out.lessons.is_empty());
    assert!(out.rejects.is_empty());
    assert!(out.invalid.is_empty());
    let v = &out.vocabulary[0];
    assert_eq!(v.spanish, "casa");
    assert_eq!(v.pos, "noun");
    assert_eq!(v.gender, Some("feminine".to_string()));
    assert_eq!(v.english_gloss, "house");
    assert_eq!(v.definition, "a home");
    assert_eq!(
        v.examples,
        vec![
            ExamplePair { es: "la casa".to_string(), en: "the house".to_string() },
            ExamplePair { es: "una casa".to_string(), en: "a house".to_string() },
        ]
    );
    assert_eq!(v.level, Level::A2);
    assert_eq!(v.tags, vec!["home".to_string(), "place".to_string()]);
    assert_eq!(v.source_files, vec!["content/x.json".to_string()]);
    assert!(v.id.starts_with("mmspanish__vocab_"));
    assert_eq!(v.id.len(), "mmspanish__vocab_".len() + 43);
}

#[test]
fn vocabulary_id_depends_on_identity() {
    let a = run("{\"spanish\": \"casa\", \"pos\": \"noun\", \"english_gloss\": \"house\", \"definition\": \"d\", \"examples\": \"a|b\"}");
    let b = run("{\"spanish\": \"CASA\", \"pos\": \"Noun\", \"english_gloss\": \"home\", \"definition\": \"e\", \"examples\": \"c|d\"}");
    let c = run("{\"spanish\": \"perro\", \"pos\": \"noun\", \"english_gloss\": \"dog\", \"definition\": \"d\", \"examples\": \"a|b\"}");
    assert_eq!(a.vocabulary[0].id, b.vocabulary[0].id);
    assert_ne!(a.vocabulary[0].id, c.vocabulary[0].id);
    let own = run("{\"id\": \"v7\", \"spanish\": \"casa\", \"pos\": \"noun\", \"english_gloss\": \"house\", \"definition\": \"d\", \"examples\": {\"hola\": \"hi\", \"x\": 3}}");
    assert_eq!(own.vocabulary[0].id, "v7");
    assert_eq!(
        own.vocabulary[0].examples,
        vec![ExamplePair { es: "hola".to_string(), en: "hi".to_string() }]
    );
    assert_eq!(own.vocabulary[0].level, Level::B1);
}

#[test]
fn lesson_is_built() {
    let out = run(
        "{\"title\": \"Hola Mundo\", \"phases\": [\"Hello\", {\"phase\": \"system_logic\", \"line\": \"x\"}, {\"phase\": \"examples\", \"items\": \"uno\"}, {\"phase\": \"meaning_depth\", \"story\": \"s\"}], \"unitnum\": 3, \"alt_notes\": \"n\"}",
    );
    assert_eq!(out.lessons.len(), 1);
    let l = &out.lessons[0];
    assert_eq!(l.title, "Hola Mundo");
    assert_eq!(l.nickname, "hola-mundo");
    assert_eq!(l.level, Level::B1);
    assert_eq!(l.unit, 3);
    assert_eq!(l.lesson_number, 9999);
    assert_eq!(l.id, "mmspanish__grammar_003_hola-mundo");
    assert_eq!(l.notes, Some("n".to_string()));
    assert_eq!(l.steps.len(), 4);
    assert!(matches!(l.steps[0], LessonStep::EnglishAnchor { ref line } if line == "Hello"));
    assert!(matches!(l.steps[1], LessonStep::SystemLogic { ref line } if line == "x"));
    assert!(matches!(l.steps[2], LessonStep::Examples(ref e) if e.items == vec!["uno".to_string()]));
    assert!(matches!(l.steps[3], LessonStep::MeaningDepth { origin: None, story: Some(ref s) } if s == "s"));
}

#[test]
fn bad_steps_are_reported() {
    let out = run("{\"title\": \"T\", \"steps\": 5}");
    assert!(out.lessons.is_empty());
    assert_eq!(out.invalid, vec!["content/x.json: unexpected steps format: 5".to_string()]);
    let out = run("{\"title\": \"T\", \"steps\": [{\"phase\": \"spanish_entry\"}]}");
    assert_eq!(out.invalid, vec!["content/x.json: spanish_entry requires line".to_string()]);
}

#[test]
fn bad_examples_are_reported() {
    let out = run("{\"spanish\": \"a\", \"pos\": \"n\", \"english_gloss\": \"g\", \"definition\": \"d\", \"examples\": [{\"es\": \"a\"}]}");
    assert_eq!(out.invalid, vec!["content/x.json: example en missing".to_string()]);
    let out = run("{\"spanish\": \"a\", \"pos\": \"n\", \"english_gloss\": \"g\", \"definition\": \"d\"}");
    assert_eq!(out.invalid, vec!["content/x.json: examples missing".to_string()]);
    let out = run("{\"spanish\": \"a\", \"english_gloss\": \"g\"}");
    assert_eq!(out.invalid, vec!["content/x.json: pos missing".to_string()]);
}

#[test]
fn unclassified_values_are_rejected() {
    let out = run("{\"foo\": 1}");
    assert_eq!(out.rejects, vec!["{\n  \"foo\": 1\n}".to_string()]);
    let out = run("[true, {\"title\": \"T\", \"steps\": []}]");
    assert_eq!(out.rejects, vec!["true".to_string()]);
    assert_eq!(out.lessons.len(), 1);
}

#[test]
fn lines_are_read_one_by_one() {
    let out = run("not json\n  {\"foo\": 2}\r\n\n");
    assert_eq!(out.rejects, vec!["not json".to_string(), "{\n  \"foo\": 2\n}".to_string()]);
    let empty = run("  \n ");
    assert!(empty.rejects.is_empty() && empty.lessons.is_empty());
}
