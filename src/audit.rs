use vstd::prelude::*;

use crate::merge::key_less;
use crate::models::{AuditLog, DuplicateGroup};
use crate::text::{chars_of, push_all, string_of, strings_view};

verus! {

/// The numeral of a digit.
pub open spec fn digit_of(d: nat) -> char {
    if d == 0 {
        '0'
    } else if d == 1 {
        '1'
    } else if d == 2 {
        '2'
    } else if d == 3 {
        '3'
    } else if d == 4 {
        '4'
    } else if d == 5 {
        '5'
    } else if d == 6 {
        '6'
    } else if d == 7 {
        '7'
    } else if d == 8 {
        '8'
    } else {
        '9'
    }
}

/// The decimal numeral of a number.
pub open spec fn numeral(n: nat) -> Seq<char>
    decreases n,
{
    if n < 10 {
        seq![digit_of(n)]
    } else {
        numeral(n / 10).push(digit_of(n % 10))
    }
}

/// Appends the decimal numeral of `n`.
pub fn push_numeral(out: &mut Vec<char>, n: usize)
    ensures
        final(out)@ == old(out)@ + numeral(n as nat),
    decreases n,
{
    if n >= 10 {
        push_numeral(out, n / 10);
    }
    let d = n % 10;
    let c = if d == 0 {
        '0'
    } else if d == 1 {
        '1'
    } else if d == 2 {
        '2'
    } else if d == 3 {
        '3'
    } else if d == 4 {
        '4'
    } else if d == 5 {
        '5'
    } else if d == 6 {
        '6'
    } else if d == 7 {
        '7'
    } else if d == 8 {
        '8'
    } else {
        '9'
    };
    out.push(c);
}

/// One bullet line per text, each indented by `indent`.
pub open spec fn bullets(indent: Seq<char>, items: Seq<Seq<char>>) -> Seq<char>
    decreases items.len(),
{
    if items.len() == 0 {
        seq![]
    } else {
        bullets(indent, items.drop_last()) + indent + "- "@ + items.last() + "\n"@
    }
}

/// A titled list, or nothing when the list is empty.
pub open spec fn section(title: Seq<char>, items: Seq<Seq<char>>) -> Seq<char> {
    if items.len() == 0 {
        seq![]
    } else {
        "\n## "@ + title + "\n"@ + bullets(seq![], items)
    }
}

/// The lines of the duplicate groups: each key, then its ids indented.
pub open spec fn group_lines(groups: Seq<DuplicateGroup>) -> Seq<char>
    decreases groups.len(),
{
    if groups.len() == 0 {
        seq![]
    } else {
        group_lines(groups.drop_last()) + "- "@ + groups.last().key@ + "\n"@ + bullets(
            "  "@,
            strings_view(groups.last().ids@),
        )
    }
}

/// A counter line of the report.
pub open spec fn counter(label: Seq<char>, n: usize) -> Seq<char> {
    "- "@ + label + ": "@ + numeral(n as nat) + "\n"@
}

/// The audit report in Markdown.
pub open spec fn audit_text(a: AuditLog) -> Seq<char> {
    "# Rebuild Audit\n\n"@ + counter("Total files scanned"@, a.total_files) + counter(
        "Conflict blocks repaired"@,
        a.conflict_blocks,
    ) + counter("Vocabulary items"@, a.vocab_count) + counter("Lessons"@, a.lesson_count)
        + counter("Duplicate clusters"@, a.duplicate_clusters) + counter(
        "Reject fragments"@,
        a.rejects,
    ) + counter("Level UNSET count"@, a.level_unset@.len() as usize) + section(
        "Level UNSET IDs"@,
        strings_view(a.level_unset@),
    ) + section("Files with merge conflicts"@, strings_view(a.conflict_files@)) + section(
        "Schema Failures"@,
        strings_view(a.schema_failures@),
    ) + (if a.duplicate_groups@.len() == 0 {
        seq![]
    } else {
        "\n## Duplicate Groups\n"@ + group_lines(a.duplicate_groups@)
    })
}

fn push_text(out: &mut Vec<char>, s: &str)
    ensures
        final(out)@ == old(out)@ + s@,
{
    let c = chars_of(s);
    push_all(out, &c);
}

fn push_counter(out: &mut Vec<char>, label: &str, n: usize)
    ensures
        final(out)@ == old(out)@ + counter(label@, n),
{
    let ghost start = out@;
    push_text(out, "- ");
    push_text(out, label);
    push_text(out, ": ");
    push_numeral(out, n);
    push_text(out, "\n");
    assert(out@ =~= start + counter(label@, n));
}

fn push_bullets(out: &mut Vec<char>, indent: &str, items: &Vec<String>)
    ensures
        final(out)@ == old(out)@ + bullets(indent@, strings_view(items@)),
{
    let ghost start = out@;
    let ghost d = strings_view(items@);
    let mut i: usize = 0;
    while i < items.len()
        invariant
            d == strings_view(items@),
            i <= items@.len(),
            out@ == start + bullets(indent@, d.take(i as int)),
        decreases items@.len() - i,
    {
        assert(d.take(i + 1).drop_last() =~= d.take(i as int));
        assert(d.take(i + 1).last() == items@[i as int]@);
        let ghost before = out@;
        push_text(out, indent);
        push_text(out, "- ");
        push_text(out, items[i].as_str());
        push_text(out, "\n");
        assert(out@ =~= start + bullets(indent@, d.take(i + 1)));
        i = i + 1;
    }
    assert(d.take(items@.len() as int) =~= d);
}

fn push_section(out: &mut Vec<char>, title: &str, items: &Vec<String>)
    ensures
        final(out)@ == old(out)@ + section(title@, strings_view(items@)),
{
    let ghost start = out@;
    if items.len() == 0 {
        assert(out@ =~= start + section(title@, strings_view(items@)));
        return;
    }
    push_text(out, "\n## ");
    push_text(out, title);
    push_text(out, "\n");
    push_bullets(out, "", items);
    proof {
        reveal_strlit("");
    }
    assert(""@ =~= Seq::<char>::empty());
    assert(out@ =~= start + section(title@, strings_view(items@)));
}

/// Renders the audit log as a Markdown report.
pub fn render_audit(audit: &AuditLog) -> (r: String)
    ensures
        r@ == audit_text(*audit),
{
    let mut out: Vec<char> = Vec::new();
    push_text(&mut out, "# Rebuild Audit\n\n");
    push_counter(&mut out, "Total files scanned", audit.total_files);
    push_counter(&mut out, "Conflict blocks repaired", audit.conflict_blocks);
    push_counter(&mut out, "Vocabulary items", audit.vocab_count);
    push_counter(&mut out, "Lessons", audit.lesson_count);
    push_counter(&mut out, "Duplicate clusters", audit.duplicate_clusters);
    push_counter(&mut out, "Reject fragments", audit.rejects);
    push_counter(&mut out, "Level UNSET count", audit.level_unset.len());
    push_section(&mut out, "Level UNSET IDs", &audit.level_unset);
    push_section(&mut out, "Files with merge conflicts", &audit.conflict_files);
    push_section(&mut out, "Schema Failures", &audit.schema_failures);
    let ghost before_groups = out@;
    if audit.duplicate_groups.len() > 0 {
        push_text(&mut out, "\n## Duplicate Groups\n");
        let ghost start = out@;
        let ghost gs = audit.duplicate_groups@;
        let mut g: usize = 0;
        while g < audit.duplicate_groups.len()
            invariant
                gs == audit.duplicate_groups@,
                g <= gs.len(),
                out@ == start + group_lines(gs.take(g as int)),
            decreases gs.len() - g,
        {
            assert(gs.take(g + 1).drop_last() =~= gs.take(g as int));
            assert(gs.take(g + 1).last() == gs[g as int]);
            let group = &audit.duplicate_groups[g];
            push_text(&mut out, "- ");
            push_text(&mut out, group.key.as_str());
            push_text(&mut out, "\n");
            push_bullets(&mut out, "  ", &group.ids);
            assert(out@ =~= start + group_lines(gs.take(g + 1)));
            g = g + 1;
        }
        assert(gs.take(gs.len() as int) =~= gs);
    }
    string_of(&out)
}

} // verus!

verus! {

/// `s` with `x` added at its ordered place, unless it is already there.
pub open spec fn insert_sorted(s: Seq<Seq<char>>, x: Seq<char>) -> Seq<Seq<char>>
    decreases s.len(),
{
    if s.len() == 0 {
        seq![x]
    } else if s[0] == x {
        s
    } else if crate::merge::key_lt(x, s[0]) {
        seq![x] + s
    } else {
        seq![s[0]] + insert_sorted(s.drop_first(), x)
    }
}

/// The texts strictly ascend, so none repeats.
pub open spec fn texts_sorted(s: Seq<Seq<char>>) -> bool {
    forall|i: int, j: int| 0 <= i < j < s.len() ==> crate::merge::key_lt(#[trigger] s[i], #[trigger] s[j])
}

/// Inserting into an ascending list keeps it ascending, and adds only `x`.
pub proof fn lemma_insert_sorted(s: Seq<Seq<char>>, x: Seq<char>)
    requires
        texts_sorted(s),
    ensures
        texts_sorted(insert_sorted(s, x)),
        forall|i: int|
            0 <= i < insert_sorted(s, x).len() ==> #[trigger] insert_sorted(s, x)[i] == x
                || s.contains(insert_sorted(s, x)[i]),
    decreases s.len(),
{
    let r = insert_sorted(s, x);
    if s.len() == 0 {
    } else if s[0] == x {
        assert forall|i: int| 0 <= i < r.len() implies #[trigger] r[i] == x || s.contains(r[i]) by {
            assert(r[i] == s[i]);
        }
    } else if crate::merge::key_lt(x, s[0]) {
        assert forall|i: int, j: int| 0 <= i < j < r.len() implies crate::merge::key_lt(#[trigger] r[i], #[trigger] r[j]) by {
            if i == 0 {
                assert(r[j] == s[j - 1]);
                if j > 1 {
                    crate::merge::lemma_key_lt_trans(x, s[0], s[j - 1]);
                }
            } else {
                assert(r[i] == s[i - 1] && r[j] == s[j - 1]);
            }
        }
        assert forall|i: int| 0 <= i < r.len() implies #[trigger] r[i] == x || s.contains(r[i]) by {
            if i > 0 {
                assert(r[i] == s[i - 1]);
            }
        }
    } else {
        let t = s.drop_first();
        assert forall|i: int, j: int| 0 <= i < j < t.len() implies crate::merge::key_lt(#[trigger] t[i], #[trigger] t[j]) by {
            assert(t[i] == s[i + 1] && t[j] == s[j + 1]);
        }
        lemma_insert_sorted(t, x);
        let rt = insert_sorted(t, x);
        crate::merge::lemma_key_lt_total(s[0], x);
        assert forall|j: int| 0 <= j < rt.len() implies crate::merge::key_lt(s[0], #[trigger] rt[j]) by {
            if rt[j] != x {
                let q = choose|q: int| 0 <= q < t.len() && t[q] == rt[j];
                assert(t[q] == s[q + 1]);
            }
        }
        assert forall|i: int, j: int| 0 <= i < j < r.len() implies crate::merge::key_lt(#[trigger] r[i], #[trigger] r[j]) by {
            assert(r[j] == rt[j - 1]);
            if i > 0 {
                assert(r[i] == rt[i - 1]);
            }
        }
        assert forall|i: int| 0 <= i < r.len() implies #[trigger] r[i] == x || s.contains(r[i]) by {
            if i > 0 {
                assert(r[i] == rt[i - 1]);
                if rt[i - 1] != x {
                    let q = choose|q: int| 0 <= q < t.len() && t[q] == rt[i - 1];
                    assert(s[q + 1] == t[q]);
                }
            } else {
                assert(r[0] == s[0]);
            }
        }
    }
}

impl AuditLog {
    /// Records a file in which conflicts were found, keeping the list ordered
    /// and free of repeats.
    pub fn record_conflict_file(&mut self, path: &str)
        ensures
            strings_view(final(self).conflict_files@) == insert_sorted(
                strings_view(old(self).conflict_files@),
                path@,
            ),
            texts_sorted(strings_view(old(self).conflict_files@)) ==> texts_sorted(
                strings_view(final(self).conflict_files@),
            ),
    {
        let ghost fv = strings_view(self.conflict_files@);
        proof {
            if texts_sorted(fv) {
                lemma_insert_sorted(fv, path@);
            }
        }
        let p = chars_of(path);
        let mut i: usize = 0;
        assert(fv.skip(0) =~= fv);
        assert(fv.take(0) + insert_sorted(fv.skip(0), path@) =~= insert_sorted(fv, path@));
        while i < self.conflict_files.len()
            invariant
                fv == strings_view(self.conflict_files@),
                self.conflict_files@ == old(self).conflict_files@,
                texts_sorted(fv) ==> texts_sorted(insert_sorted(fv, path@)),
                p@ == path@,
                i <= self.conflict_files@.len(),
                insert_sorted(fv, path@) == fv.take(i as int) + insert_sorted(fv.skip(i as int), path@),
            decreases self.conflict_files@.len() - i,
        {
            assert(fv.skip(i as int)[0] == fv[i as int]);
            let here = chars_of(self.conflict_files[i].as_str());
            if crate::text::same_chars(&here, &p) {
                assert(insert_sorted(fv.skip(i as int), path@) == fv.skip(i as int));
                assert(fv.take(i as int) + fv.skip(i as int) =~= fv);
                return;
            }
            if key_less(&p, &here) {
                assert(insert_sorted(fv.skip(i as int), path@) == seq![path@] + fv.skip(i as int));
                self.conflict_files.insert(i, path.to_owned());
                assert(strings_view(self.conflict_files@) =~= fv.take(i as int) + (seq![path@]
                    + fv.skip(i as int)));
                return;
            }
            assert(fv.skip(i as int).drop_first() =~= fv.skip(i + 1));
            assert(fv.take(i + 1) =~= fv.take(i as int) + seq![fv[i as int]]);
            i = i + 1;
        }
        self.conflict_files.push(path.to_owned());
        assert(strings_view(self.conflict_files@) =~= fv.take(i as int) + seq![path@]);
    }
}

} // verus!
