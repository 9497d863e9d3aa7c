use vstd::prelude::*;

use crate::text::{
    blank, is_blank, join_texts, join_with, lower_of, lowercase, strings_view, text_is, trim_of,
    trim_text, upper_of, uppercase, words, words_of,
};

verus! {

/// A proficiency tier, or the explicit absence of one.
#[derive(Clone, Copy, Debug, PartialEq, Eq, Structural, Hash, PartialOrd, Ord)]
pub enum Level {
    A1,
    A2,
    B1,
    B2,
    C1,
    C2,
    UNSET,
}

/// The rank of a level: tiers from one upward, the unset level last.
pub open spec fn level_rank(l: Level) -> usize {
    match l {
        Level::A1 => 1,
        Level::A2 => 2,
        Level::B1 => 3,
        Level::B2 => 4,
        Level::C1 => 5,
        Level::C2 => 6,
        Level::UNSET => 7,
    }
}

/// The level a normalized name denotes, if any.
pub open spec fn level_named(s: Seq<char>) -> Option<Level> {
    if s == "A1"@ {
        Some(Level::A1)
    } else if s == "A2"@ {
        Some(Level::A2)
    } else if s == "B1"@ {
        Some(Level::B1)
    } else if s == "B2"@ {
        Some(Level::B2)
    } else if s == "C1"@ {
        Some(Level::C1)
    } else if s == "C2"@ {
        Some(Level::C2)
    } else if s == "UNSET"@ {
        Some(Level::UNSET)
    } else {
        None
    }
}

impl Level {
    pub fn order(&self) -> (r: usize)
        ensures
            r == level_rank(*self),
    {
        match self {
            Level::A1 => 1,
            Level::A2 => 2,
            Level::B1 => 3,
            Level::B2 => 4,
            Level::C1 => 5,
            Level::C2 => 6,
            Level::UNSET => 7,
        }
    }

    /// Reads a level name, ignoring surrounding whitespace and case.
    pub fn parse(input: &str) -> (r: Option<Level>)
        ensures
            r == level_named(upper_of(trim_of(input@))),
    {
        let t = trim_text(input);
        let u = uppercase(t.as_str());
        let s = u.as_str();
        if text_is(s, "A1") {
            Some(Level::A1)
        } else if text_is(s, "A2") {
            Some(Level::A2)
        } else if text_is(s, "B1") {
            Some(Level::B1)
        } else if text_is(s, "B2") {
            Some(Level::B2)
        } else if text_is(s, "C1") {
            Some(Level::C1)
        } else if text_is(s, "C2") {
            Some(Level::C2)
        } else if text_is(s, "UNSET") {
            Some(Level::UNSET)
        } else {
            None
        }
    }
}

/// The items of an examples step.
#[derive(Clone, Debug, Default)]
pub struct LessonStepExamples {
    pub items: Vec<String>,
}

/// One step of a lesson.
#[derive(Clone, Debug)]
pub enum LessonStep {
    EnglishAnchor { line: String },
    SystemLogic { line: String },
    MeaningDepth { origin: Option<String>, story: Option<String> },
    SpanishEntry { line: String },
    Examples(LessonStepExamples),
}

/// Why a step is invalid, if it is.
pub open spec fn step_error(s: LessonStep) -> Option<Seq<char>> {
    match s {
        LessonStep::EnglishAnchor { line } | LessonStep::SystemLogic { line }
        | LessonStep::SpanishEntry { line } => if is_blank(line@) {
            Some("Lesson step line must be non-empty"@)
        } else {
            None
        },
        LessonStep::MeaningDepth { .. } => None,
        LessonStep::Examples(e) => if e.items@.len() == 0 {
            Some("Examples must contain at least one item"@)
        } else {
            None
        },
    }
}

impl LessonStep {
    pub fn validate(&self) -> (r: Result<(), String>)
        ensures
            match r {
                Ok(()) => step_error(*self) is None,
                Err(e) => step_error(*self) == Some(e@),
            },
    {
        match self {
            LessonStep::EnglishAnchor { line } | LessonStep::SystemLogic { line }
            | LessonStep::SpanishEntry { line } => {
                if blank(line.as_str()) {
                    Err("Lesson step line must be non-empty".to_owned())
                } else {
                    Ok(())
                }
            },
            LessonStep::MeaningDepth { .. } => Ok(()),
            LessonStep::Examples(examples) => {
                if examples.items.len() == 0 {
                    Err("Examples must contain at least one item".to_owned())
                } else {
                    Ok(())
                }
            },
        }
    }
}

/// A container of example pairs.
#[derive(Clone, Debug, Default)]
pub struct ExamplesArray {
    pub examples: Vec<ExamplePair>,
}

/// A Spanish sentence with its English rendering.
#[derive(Clone, Debug, PartialEq, Eq, Hash, PartialOrd, Ord)]
pub struct ExamplePair {
    pub es: String,
    pub en: String,
}

/// A text with runs of whitespace collapsed to single spaces, trimmed, and lowercased.
pub open spec fn collapsed_lower(s: Seq<char>) -> Seq<char> {
    lower_of(join_with(words_of(s), " "@))
}

/// The key under which two example pairs count as the same.
pub open spec fn pair_key(p: ExamplePair) -> (Seq<char>, Seq<char>) {
    (collapsed_lower(p.es@), collapsed_lower(p.en@))
}

fn collapse_lower(s: &str) -> (r: String)
    ensures
        r@ == collapsed_lower(s@),
{
    let ws = words(s);
    let joined = join_texts(&ws, " ");
    lowercase(joined.as_str())
}

impl ExamplePair {
    pub fn normalize_key(&self) -> (r: (String, String))
        ensures
            (r.0@, r.1@) == pair_key(*self),
    {
        (collapse_lower(self.es.as_str()), collapse_lower(self.en.as_str()))
    }
}

/// A grammar lesson.
#[derive(Clone, Debug)]
pub struct Lesson {
    pub id: String,
    pub title: String,
    pub nickname: String,
    pub level: Level,
    pub unit: u32,
    pub lesson_number: u32,
    pub tags: Vec<String>,
    pub steps: Vec<LessonStep>,
    pub notes: Option<String>,
    pub source_files: Vec<String>,
}

/// The first invalid step from index `i` on, and why.
pub open spec fn steps_error(steps: Seq<LessonStep>, i: int) -> Option<Seq<char>>
    decreases steps.len() - i,
{
    if i < 0 || i >= steps.len() {
        None
    } else if step_error(steps[i]) is Some {
        step_error(steps[i])
    } else {
        steps_error(steps, i + 1)
    }
}

/// Why a lesson is invalid, if it is.
pub open spec fn lesson_error(l: Lesson) -> Option<Seq<char>> {
    if is_blank(l.id@) {
        Some("Lesson id is required"@)
    } else if is_blank(l.title@) {
        Some("Lesson title is required"@)
    } else if is_blank(l.nickname@) {
        Some("Lesson nickname is required"@)
    } else if l.steps@.len() == 0 {
        Some("Lesson must contain steps"@)
    } else {
        steps_error(l.steps@, 0)
    }
}

impl Lesson {
    pub fn validate(&self) -> (r: Result<(), String>)
        ensures
            match r {
                Ok(()) => lesson_error(*self) is None,
                Err(e) => lesson_error(*self) == Some(e@),
            },
    {
        if blank(self.id.as_str()) {
            return Err("Lesson id is required".to_owned());
        }
        if blank(self.title.as_str()) {
            return Err("Lesson title is required".to_owned());
        }
        if blank(self.nickname.as_str()) {
            return Err("Lesson nickname is required".to_owned());
        }
        if self.steps.len() == 0 {
            return Err("Lesson must contain steps".to_owned());
        }
        let mut i: usize = 0;
        while i < self.steps.len()
            invariant
                i <= self.steps@.len(),
                self.steps@.len() > 0,
                !is_blank(self.id@),
                !is_blank(self.title@),
                !is_blank(self.nickname@),
                steps_error(self.steps@, 0) == steps_error(self.steps@, i as int),
            decreases self.steps@.len() - i,
        {
            match self.steps[i].validate() {
                Ok(()) => {},
                Err(e) => {
                    return Err(e);
                },
            }
            i = i + 1;
        }
        Ok(())
    }

    pub fn sort_key(&self) -> (r: (usize, u32, u32, String))
        ensures
            r.0 == level_rank(self.level),
            r.1 == self.unit,
            r.2 == self.lesson_number,
            r.3@ == self.id@,
    {
        (self.level.order(), self.unit, self.lesson_number, self.id.clone())
    }
}

/// A vocabulary entry.
#[derive(Clone, Debug)]
pub struct Vocabulary {
    pub id: String,
    pub spanish: String,
    pub pos: String,
    pub gender: Option<String>,
    pub english_gloss: String,
    pub definition: String,
    pub origin: Option<String>,
    pub story: Option<String>,
    pub examples: Vec<ExamplePair>,
    pub level: Level,
    pub tags: Vec<String>,
    pub source_files: Vec<String>,
    pub notes: Option<String>,
}

/// Why a vocabulary entry is invalid, if it is.
pub open spec fn vocab_error(v: Vocabulary) -> Option<Seq<char>> {
    if is_blank(v.id@) {
        Some("Vocabulary id is required"@)
    } else if is_blank(v.spanish@) {
        Some("spanish is required"@)
    } else if is_blank(v.pos@) {
        Some("pos is required"@)
    } else if is_blank(v.english_gloss@) {
        Some("english_gloss is required"@)
    } else if is_blank(v.definition@) {
        Some("definition is required"@)
    } else if v.examples@.len() == 0 {
        Some("examples are required"@)
    } else {
        None
    }
}

/// The text that stands for a gender in identity keys.
pub open spec fn gender_text(g: Option<String>) -> Seq<char> {
    match g {
        Some(s) => s@,
        None => "null"@,
    }
}

/// The identity key of a vocabulary entry.
pub open spec fn vocab_key(v: Vocabulary) -> (Seq<char>, Seq<char>, Seq<char>) {
    (lower_of(v.spanish@), lower_of(v.pos@), lower_of(gender_text(v.gender)))
}

impl Vocabulary {
    pub fn validate(&self) -> (r: Result<(), String>)
        ensures
            match r {
                Ok(()) => vocab_error(*self) is None,
                Err(e) => vocab_error(*self) == Some(e@),
            },
    {
        if blank(self.id.as_str()) {
            return Err("Vocabulary id is required".to_owned());
        }
        if blank(self.spanish.as_str()) {
            return Err("spanish is required".to_owned());
        }
        if blank(self.pos.as_str()) {
            return Err("pos is required".to_owned());
        }
        if blank(self.english_gloss.as_str()) {
            return Err("english_gloss is required".to_owned());
        }
        if blank(self.definition.as_str()) {
            return Err("definition is required".to_owned());
        }
        if self.examples.len() == 0 {
            return Err("examples are required".to_owned());
        }
        Ok(())
    }

    pub fn sort_key(&self) -> (r: (usize, String))
        ensures
            r.0 == level_rank(self.level),
            r.1@ == self.id@,
    {
        (self.level.order(), self.id.clone())
    }

    pub fn dedup_key(&self) -> (r: (String, String, String))
        ensures
            (r.0@, r.1@, r.2@) == vocab_key(*self),
    {
        let gender = match &self.gender {
            Some(g) => lowercase(g.as_str()),
            None => lowercase("null"),
        };
        (lowercase(self.spanish.as_str()), lowercase(self.pos.as_str()), gender)
    }
}

/// A group of record ids folded together under one identity key.
#[derive(Clone, Debug)]
pub struct DuplicateGroup {
    pub key: String,
    pub ids: Vec<String>,
}

/// Counters and lists gathered over one rebuild.
#[derive(Clone, Debug, Default)]
pub struct AuditLog {
    pub total_files: usize,
    pub conflict_blocks: usize,
    pub vocab_count: usize,
    pub lesson_count: usize,
    pub duplicate_clusters: usize,
    pub level_unset: Vec<String>,
    pub rejects: usize,
    pub schema_failures: Vec<String>,
    pub conflict_files: Vec<String>,
    pub duplicate_groups: Vec<DuplicateGroup>,
}

impl AuditLog {
    pub fn record_unset(&mut self, id: &str)
        ensures
            strings_view(final(self).level_unset@) == strings_view(old(self).level_unset@).push(
                id@,
            ),
            final(self).duplicate_groups == old(self).duplicate_groups,
            final(self).duplicate_clusters == old(self).duplicate_clusters,
    {
        let ghost prev = self.level_unset@;
        self.level_unset.push(id.to_owned());
        assert(strings_view(self.level_unset@) =~= strings_view(prev).push(id@));
    }
}

} // verus!
