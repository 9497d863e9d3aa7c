use vstd::prelude::*;

use crate::merge::tree_wf;
use crate::tree::{Tree, TreeV, opt_view};

verus! {

#[verifier::external_type_specification]
#[verifier::external_body]
pub struct ExValue(serde_json::Value);

/// What `serde_json::from_str` reads from a text, if it accepts it.
pub uninterp spec fn strict_parse(text: Seq<char>) -> Option<TreeV>;

/// What `json5::from_str` reads from a text, if it accepts it.
pub uninterp spec fn relaxed_parse(text: Seq<char>) -> Option<TreeV>;

/// What `serde_json::to_string_pretty` writes for a tree.
pub uninterp spec fn pretty_text(t: TreeV) -> Seq<char>;

/// What `serde_json::to_string` writes for a tree (its compact form).
pub uninterp spec fn compact_text(t: TreeV) -> Seq<char>;

/// Converts a `serde_json::Value` into a tree, variant for variant.
#[verifier::external_body]
fn tree_of_value(v: &serde_json::Value) -> Tree {
    match v {
        serde_json::Value::Null => Tree::Null,
        serde_json::Value::Bool(b) => Tree::Bool(*b),
        serde_json::Value::Number(n) => Tree::Num(n.to_string().chars().collect()),
        serde_json::Value::String(s) => Tree::Str(s.chars().collect()),
        serde_json::Value::Array(a) => Tree::Arr(a.iter().map(tree_of_value).collect()),
        serde_json::Value::Object(m) => Tree::Obj(
            m.iter().map(|(k, x)| (k.chars().collect(), tree_of_value(x))).collect(),
        ),
    }
}

/// Converts a tree into a `serde_json::Value`, variant for variant.
#[verifier::external_body]
fn value_of_tree(t: &Tree) -> serde_json::Value {
    match t {
        Tree::Null => serde_json::Value::Null,
        Tree::Bool(b) => serde_json::Value::Bool(*b),
        Tree::Num(n) => serde_json::from_str(&n.iter().collect::<String>())
            .unwrap_or(serde_json::Value::Null),
        Tree::Str(s) => serde_json::Value::String(s.iter().collect()),
        Tree::Arr(a) => serde_json::Value::Array(a.iter().map(value_of_tree).collect()),
        Tree::Obj(e) => serde_json::Value::Object(
            e.iter().map(|(k, x)| (k.iter().collect(), value_of_tree(x))).collect(),
        ),
    }
}

/// Relies on `serde_json::from_str::<serde_json::Value>`: the strict grammar.
/// A `serde_json::Map` is a `BTreeMap<String, Value>`, so the keys of every
/// object come out unique and in ascending order.
#[verifier::external_body]
fn parse_strict(text: &Vec<char>) -> (r: Option<Tree>)
    ensures
        opt_view(r) == strict_parse(text@),
        r matches Some(t) ==> tree_wf(t@),
{
    let s: String = text.iter().collect();
    match serde_json::from_str::<serde_json::Value>(&s) {
        Ok(v) => Some(tree_of_value(&v)),
        Err(_) => None,
    }
}

/// Relies on `json5::from_str::<serde_json::Value>`: the relaxed grammar, with
/// comments, trailing commas and unquoted keys. It reads into a
/// `serde_json::Value`, whose objects are `BTreeMap`s: keys unique, ascending.
#[verifier::external_body]
fn parse_relaxed(text: &Vec<char>) -> (r: Option<Tree>)
    ensures
        opt_view(r) == relaxed_parse(text@),
        r matches Some(t) ==> tree_wf(t@),
{
    let s: String = text.iter().collect();
    match json5::from_str::<serde_json::Value>(&s) {
        Ok(v) => Some(tree_of_value(&v)),
        Err(_) => None,
    }
}

/// Relies on `serde_json::to_string_pretty` on the tree's value.
#[verifier::external_body]
pub fn to_pretty(t: &Tree) -> (r: Vec<char>)
    ensures
        r@ == pretty_text(t@),
{
    serde_json::to_string_pretty(&value_of_tree(t)).unwrap_or_default().chars().collect()
}

/// Relies on `serde_json::to_string` on the tree's value.
#[verifier::external_body]
pub fn to_compact(t: &Tree) -> (r: Vec<char>)
    ensures
        r@ == compact_text(t@),
{
    serde_json::to_string(&value_of_tree(t)).unwrap_or_default().chars().collect()
}

/// The tolerant reading of a text: the strict grammar first, then the relaxed one.
pub open spec fn tolerant_spec(text: Seq<char>) -> Option<TreeV> {
    match strict_parse(text) {
        Some(t) => Some(t),
        None => relaxed_parse(text),
    }
}

/// Reads a text with the strict grammar, falling back to the relaxed one.
pub fn tolerant_parse(text: &Vec<char>) -> (r: Option<Tree>)
    ensures
        opt_view(r) == tolerant_spec(text@),
        r matches Some(t) ==> tree_wf(t@),
{
    match parse_strict(text) {
        Some(t) => Some(t),
        None => parse_relaxed(text),
    }
}

} // verus!
