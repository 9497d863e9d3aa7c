use corpus_heal::conflicts::resolve_conflicts;
use corpus_heal::merge::merge_with_notes;
use corpus_heal::tree::Tree;

fn chars(s: &str) -> Vec<char> {
    s.chars().collect()
}

fn text(v: &[char]) -> String {
    v.iter().collect()
}

#[test]
fn plain_text_is_unchanged() {
    let doc = "{\"a\": 1}\nno markers here\n";
    let r = resolve_conflicts(doc);
    assert_eq!(r.content, doc);
    assert_eq!(r.conflicts, 0);
    assert!(!r.had_conflicts);
    assert!(r.rejects.is_empty());
}

#[test]
fn numbers_merge_to_right_side() {
    let doc = "<<<<<<< HEAD\n{\"a\":1}\n=======\n{\"a\":2}\n>>>>>>> branch\n";
    let r = resolve_conflicts(doc);
    assert!(r.content.contains("\"a\": 2"));
    assert!(r.rejects.is_empty());
    assert_eq!(r.conflicts, 1);
    assert!(r.had_conflicts);
}

#[test]
fn unparseable_sides_become_rejects() {
    let doc = "<<<<<<< HEAD\nnot json\n=======\nalso not json\n>>>>>>> other\n";
    let r = resolve_conflicts(doc);
    assert_eq!(r.content, "also not json");
    assert_eq!(r.rejects, vec!["not json".to_string(), "also not json".to_string()]);
    assert_eq!(r.conflicts, 1);
}

#[test]
fn text_around_regions_is_kept() {
    let doc = "before\n<<<<<<< a\n[1, 2]\n=======\n[2, 3]\n>>>>>>> b\nafter\n<<<<<<< c\ntrue\n=======\nfalse\n>>>>>>> d";
    let r = resolve_conflicts(doc);
    assert_eq!(r.content, "before\n[\n  1,\n  2,\n  3\n]after\nfalse");
    assert_eq!(r.conflicts, 2);
    assert!(r.rejects.is_empty());
}

#[test]
fn one_parseable_side_is_used() {
    let doc = "<<<<<<< a\n{\"k\": true}\n=======\n{broken\n>>>>>>> b\n";
    let r = resolve_conflicts(doc);
    assert_eq!(r.content, "{\n  \"k\": true\n}");
    assert!(r.rejects.is_empty());
}

#[test]
fn relaxed_grammar_is_accepted() {
    let doc = "<<<<<<< a\n{a: 1, // note\n}\n=======\n{\"b\": 2,}\n>>>>>>> b\n";
    let r = resolve_conflicts(doc);
    assert_eq!(r.content, "{\n  \"a\": 1,\n  \"b\": 2\n}");
}

#[test]
fn short_strings_leave_a_note_in_the_mapping() {
    let doc = "<<<<<<< a\n{\"title\": \"ab\"}\n=======\n{\"title\": \"abc\"}\n>>>>>>> b\n";
    let r = resolve_conflicts(doc);
    assert_eq!(
        r.content,
        "{\n  \"notes\": \"ALT VARIANTS:\\ntitle => ab\",\n  \"title\": \"abc\"\n}"
    );
    assert!(r.rejects.is_empty());
}

#[test]
fn root_strings_leave_a_reject() {
    let doc = "<<<<<<< a\n\"xy\"\n=======\n\"z\"\n>>>>>>> b\n";
    let r = resolve_conflicts(doc);
    assert_eq!(r.content, "\"xy\"");
    assert_eq!(r.rejects, vec![" => z".to_string()]);
}

#[test]
fn narrative_fields_keep_both_texts() {
    let doc = "<<<<<<< a\n{\"story\": \"one\"}\n=======\n{\"story\": \"two\"}\n>>>>>>> b\n";
    let r = resolve_conflicts(doc);
    assert_eq!(r.content, "{\n  \"story\": \"one\\n\\n— MERGED VARIANT —\\n\\ntwo\"\n}");
}

#[test]
fn existing_notes_are_kept_before_variants() {
    let doc = "<<<<<<< a\n{\"notes\": \" keep \", \"x\": \"long\", \"y\": 5}\n=======\n{\"x\": \"abc\", \"y\": \"five\"}\n>>>>>>> b\n";
    let r = resolve_conflicts(doc);
    assert_eq!(
        r.content,
        "{\n  \"notes\": \"keep\\n\\nALT VARIANTS:\\nx => abc\\ny => 5\",\n  \"x\": \"long\",\n  \"y\": \"five\"\n}"
    );
}

#[test]
fn missing_end_marker_is_no_region() {
    let doc = "<<<<<<< a\n{}\n=======\n{}\n";
    let r = resolve_conflicts(doc);
    assert_eq!(r.content, doc);
    assert_eq!(r.conflicts, 0);
}

#[test]
fn same_primitives_take_right() {
    let (m, notes) = merge_with_notes(&Tree::Num(chars("1")), &Tree::Num(chars("2")), &chars("a"));
    assert!(matches!(m, Tree::Num(ref n) if text(n) == "2"));
    assert!(notes.is_empty());
    let (m, _) = merge_with_notes(&Tree::Bool(true), &Tree::Bool(false), &chars(""));
    assert!(matches!(m, Tree::Bool(false)));
    let (m, notes) = merge_with_notes(&Tree::Null, &Tree::Null, &chars(""));
    assert!(matches!(m, Tree::Null));
    assert!(notes.is_empty());
}

#[test]
fn equal_strings_are_kept_without_note() {
    let (m, notes) = merge_with_notes(&Tree::Str(chars("same")), &Tree::Str(chars("same")), &chars("title"));
    assert!(matches!(m, Tree::Str(ref s) if text(s) == "same"));
    assert!(notes.is_empty());
}

#[test]
fn longer_string_wins_and_ties_go_right() {
    let (m, notes) = merge_with_notes(&Tree::Str(chars("long")), &Tree::Str(chars("ab")), &chars("x.title"));
    assert!(matches!(m, Tree::Str(ref s) if text(s) == "long"));
    assert_eq!(notes.len(), 1);
    assert_eq!(text(&notes[0]), "x.title => ab");
    let (m, notes) = merge_with_notes(&Tree::Str(chars("ab")), &Tree::Str(chars("cd")), &chars("label"));
    assert!(matches!(m, Tree::Str(ref s) if text(s) == "cd"));
    assert_eq!(text(&notes[0]), "label => ab");
}

#[test]
fn length_counts_bytes() {
    let (m, _) = merge_with_notes(&Tree::Str(chars("ñ")), &Tree::Str(chars("ab")), &chars("t"));
    assert!(matches!(m, Tree::Str(ref s) if text(s) == "ab"));
    let (m, _) = merge_with_notes(&Tree::Str(chars("ñb")), &Tree::Str(chars("ab")), &chars("t"));
    assert!(matches!(m, Tree::Str(ref s) if text(s) == "ñb"));
}

#[test]
fn narrative_path_concatenates() {
    let (m, notes) = merge_with_notes(&Tree::Str(chars("a")), &Tree::Str(chars("b")), &chars("entry.definition"));
    assert!(matches!(m, Tree::Str(ref s) if text(s) == "a\n\n— MERGED VARIANT —\n\nb"));
    assert!(notes.is_empty());
}

#[test]
fn mismatched_types_note_the_left_value() {
    let left = Tree::Arr(vec![Tree::Num(chars("1")), Tree::Str(chars("q"))]);
    let (m, notes) = merge_with_notes(&left, &Tree::Bool(true), &chars("k"));
    assert!(matches!(m, Tree::Bool(true)));
    assert_eq!(text(&notes[0]), "k => [1,\"q\"]");
}

#[test]
fn null_yields_to_the_other_side() {
    let (m, notes) = merge_with_notes(&Tree::Null, &Tree::Str(chars("v")), &chars("k"));
    assert!(matches!(m, Tree::Str(ref s) if text(s) == "v"));
    assert!(notes.is_empty());
    let (m, notes) = merge_with_notes(&Tree::Num(chars("3")), &Tree::Null, &chars("k"));
    assert!(matches!(m, Tree::Num(ref s) if text(s) == "3"));
    assert!(notes.is_empty());
}

#[test]
fn mapping_merge_keeps_every_key() {
    let a = Tree::Obj(vec![(chars("a"), Tree::Num(chars("1"))), (chars("c"), Tree::Null)]);
    let b = Tree::Obj(vec![(chars("b"), Tree::Bool(true)), (chars("c"), Tree::Num(chars("4")))]);
    let (m, notes) = merge_with_notes(&a, &b, &chars(""));
    assert!(notes.is_empty());
    match m {
        Tree::Obj(es) => {
            let keys: Vec<String> = es.iter().map(|(k, _)| text(k)).collect();
            assert_eq!(keys, vec!["a", "b", "c"]);
            assert!(matches!(es[2].1, Tree::Num(ref n) if text(n) == "4"));
        }
        _ => panic!("expected a mapping"),
    }
}

#[test]
fn sequence_merge_keeps_first_occurrences() {
    let a = Tree::Arr(vec![Tree::Str(chars("x")), Tree::Num(chars("1")), Tree::Str(chars("x"))]);
    let b = Tree::Arr(vec![Tree::Num(chars("1")), Tree::Str(chars("1")), Tree::Str(chars("y"))]);
    let (m, notes) = merge_with_notes(&a, &b, &chars(""));
    assert!(notes.is_empty());
    match m {
        Tree::Arr(items) => {
            assert_eq!(items.len(), 3);
            assert!(matches!(items[0], Tree::Str(ref s) if text(s) == "x"));
            assert!(matches!(items[1], Tree::Num(ref s) if text(s) == "1"));
            assert!(matches!(items[2], Tree::Str(ref s) if text(s) == "y"));
        }
        _ => panic!("expected a sequence"),
    }
}

#[test]
fn sequence_merge_is_public() {
    let a = vec![Tree::Str(chars("p")), Tree::Str(chars("q"))];
    let b = vec![Tree::Str(chars("q")), Tree::Str(chars("r"))];
    let m = corpus_heal::merge::merge_arrays(&a, &b);
    let texts: Vec<String> = m
        .iter()
        .map(|t| match t {
            Tree::Str(s) => text(s),
            _ => String::new(),
        })
        .collect();
    assert_eq!(texts, vec!["p", "q", "r"]);
}

#[test]
fn unsorted_input_keys_are_sorted_by_the_parser() {
    let doc = "<<<<<<< a\n{\"b\": 1, \"a\": \"xxx\"}\n=======\n{\"a\": \"y\"}\n>>>>>>> b\n";
    let r = resolve_conflicts(doc);
    assert_eq!(
        r.content,
        "{\n  \"a\": \"xxx\",\n  \"b\": 1,\n  \"notes\": \"ALT VARIANTS:\\na => y\"\n}"
    );
}
