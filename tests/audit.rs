use corpus_heal::audit::render_audit;
use corpus_heal::classify::{infer_level_from_path, normalize_gender};
use corpus_heal::models::{AuditLog, DuplicateGroup, Level};

#[test]
fn empty_audit_report() {
    let audit = AuditLog::default();
    assert_eq!(
        render_audit(&audit),
        "# Rebuild Audit\n\n- Total files scanned: 0\n- Conflict blocks repaired: 0\n- Vocabulary items: 0\n- Lessons: 0\n- Duplicate clusters: 0\n- Reject fragments: 0\n- Level UNSET count: 0\n"
    );
}

#[test]
fn full_audit_report() {
    let mut audit = AuditLog::default();
    audit.total_files = 12;
    audit.conflict_blocks = 305;
    audit.record_unset("v9");
    audit.record_conflict_file("content/b.json");
    audit.record_conflict_file("content/a.json");
    audit.record_conflict_file("content/b.json");
    audit.schema_failures.push("l1: Lesson id is required".to_string());
    audit.duplicate_groups.push(DuplicateGroup {
        key: "vocab:casa:noun:feminine".to_string(),
        ids: vec!["v1".to_string(), "v2".to_string()],
    });
    let body = render_audit(&audit);
    assert_eq!(
        body,
        "# Rebuild Audit\n\n- Total files scanned: 12\n- Conflict blocks repaired: 305\n- Vocabulary items: 0\n- Lessons: 0\n- Duplicate clusters: 0\n- Reject fragments: 0\n- Level UNSET count: 1\n\n## Level UNSET IDs\n- v9\n\n## Files with merge conflicts\n- content/a.json\n- content/b.json\n\n## Schema Failures\n- l1: Lesson id is required\n\n## Duplicate Groups\n- vocab:casa:noun:feminine\n  - v1\n  - v2\n"
    );
}

#[test]
fn conflict_files_stay_ordered() {
    let mut audit = AuditLog::default();
    for f in ["c", "a", "b", "a", "ab"] {
        audit.record_conflict_file(f);
    }
    assert_eq!(audit.conflict_files, vec!["a", "ab", "b", "c"]);
}

#[test]
fn gender_tags() {
    assert_eq!(normalize_gender("M"), Some("masculine".to_string()));
    assert_eq!(normalize_gender("Feminine"), Some("feminine".to_string()));
    assert_eq!(normalize_gender("neuter"), None);
}

#[test]
fn level_from_path() {
    assert_eq!(infer_level_from_path("content/B1/lesson.json"), Some(Level::B1));
    assert_eq!(infer_level_from_path("content/x-c2-a1.json"), Some(Level::C2));
    assert_eq!(infer_level_from_path("content/notes.txt"), None);
    assert_eq!(infer_level_from_path("a"), None);
}
