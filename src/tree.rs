use vstd::prelude::*;

verus! {

/// A parsed semi-structured value: the generic tree that conflict sides are
/// read into. Text is held as characters; a number keeps its literal text.
pub enum Tree {
    Null,
    Bool(bool),
    Num(Vec<char>),
    Str(Vec<char>),
    Arr(Vec<Tree>),
    Obj(Vec<(Vec<char>, Tree)>),
}

/// The mathematical model of a `Tree`.
pub enum TreeV {
    Null,
    Bool(bool),
    Num(Seq<char>),
    Str(Seq<char>),
    Arr(Seq<TreeV>),
    Obj(Seq<(Seq<char>, TreeV)>),
}

impl View for Tree {
    type V = TreeV;

    open spec fn view(&self) -> TreeV
        decreases self,
    {
        match self {
            Tree::Null => TreeV::Null,
            Tree::Bool(b) => TreeV::Bool(*b),
            Tree::Num(n) => TreeV::Num(n@),
            Tree::Str(s) => TreeV::Str(s@),
            Tree::Arr(v) => TreeV::Arr(
                Seq::new(v@.len(), |i: int| if 0 <= i < v@.len() { v@[i].view() } else { TreeV::Null }),
            ),
            Tree::Obj(v) => {
                let vals = Seq::new(
                    v@.len(),
                    |i: int| if 0 <= i < v@.len() { v@[i].1.view() } else { TreeV::Null },
                );
                TreeV::Obj(Seq::new(v@.len(), |i: int| (v@[i].0@, vals[i])))
            },
        }
    }
}

} // verus!

verus! {

/// The model of an optional tree.
pub open spec fn opt_view(r: Option<Tree>) -> Option<TreeV> {
    match r {
        Some(t) => Some(t@),
        None => None,
    }
}

} // verus!

verus! {

/// The model of a run of trees.
pub open spec fn trees_view(v: Seq<Tree>) -> Seq<TreeV> {
    Seq::new(v.len(), |i: int| v[i]@)
}

/// The model of a run of mapping entries.
pub open spec fn entries_view(v: Seq<(Vec<char>, Tree)>) -> Seq<(Seq<char>, TreeV)> {
    Seq::new(v.len(), |i: int| (v[i].0@, v[i].1@))
}

pub proof fn lemma_arr_view(v: Vec<Tree>)
    ensures
        Tree::Arr(v)@ == TreeV::Arr(trees_view(v@)),
{
    assert((Tree::Arr(v)@)->Arr_0 =~= trees_view(v@));
}

pub proof fn lemma_obj_view(v: Vec<(Vec<char>, Tree)>)
    ensures
        Tree::Obj(v)@ == TreeV::Obj(entries_view(v@)),
{
    let t = Tree::Obj(v);
    let s = t@->Obj_0;
    assert forall|i: int| 0 <= i < v@.len() implies s[i] == entries_view(v@)[i] by {
        assert(s[i] == (v@[i].0@, v@[i].1@));
    }
    assert(s =~= entries_view(v@));
}

pub proof fn lemma_vec_child_decreases<T>(v: Vec<T>, i: int)
    requires
        0 <= i < v@.len(),
    ensures
        decreases_to!(v => v@[i]),
{
    broadcast use vstd::std_specs::vec::axiom_vec_decreases_to_view;
    broadcast use vstd::seq::axiom_seq_index_decreases;

    assert(decreases_to!(v => v@));
    assert(decreases_to!(v@ => v@[i]));
}

/// A copy of a run of characters.
pub fn copy_chars(v: &Vec<char>) -> (r: Vec<char>)
    ensures
        r@ == v@,
{
    let r = v.clone();
    assert(r@ =~= v@);
    r
}

impl Tree {
    /// A copy of the tree, node for node.
    pub fn deep_copy(&self) -> (r: Tree)
        ensures
            r@ == self@,
        decreases self,
    {
        match self {
            Tree::Null => Tree::Null,
            Tree::Bool(b) => Tree::Bool(*b),
            Tree::Num(n) => Tree::Num(copy_chars(n)),
            Tree::Str(s) => Tree::Str(copy_chars(s)),
            Tree::Arr(v) => {
                let mut out: Vec<Tree> = Vec::new();
                let mut i: usize = 0;
                while i < v.len()
                    invariant
                        i <= v@.len(),
                        decreases_to!(*self => *v),
                        out@.len() == i,
                        forall|k: int| 0 <= k < i ==> (#[trigger] out@[k])@ == v@[k]@,
                    decreases v@.len() - i,
                {
                    proof {
                        lemma_vec_child_decreases(*v, i as int);
                    }
                    let c = v[i].deep_copy();
                    out.push(c);
                    i = i + 1;
                }
                proof {
                    lemma_arr_view(out);
                    lemma_arr_view(*v);
                    assert(trees_view(out@) =~= trees_view(v@));
                }
                Tree::Arr(out)
            },
            Tree::Obj(v) => {
                let mut out: Vec<(Vec<char>, Tree)> = Vec::new();
                let mut i: usize = 0;
                while i < v.len()
                    invariant
                        i <= v@.len(),
                        decreases_to!(*self => *v),
                        out@.len() == i,
                        forall|k: int|
                            0 <= k < i ==> (#[trigger] out@[k]).0@ == v@[k].0@ && out@[k].1@
                                == v@[k].1@,
                    decreases v@.len() - i,
                {
                    proof {
                        lemma_vec_child_decreases(*v, i as int);
                    }
                    let k = copy_chars(&v[i].0);
                    let c = v[i].1.deep_copy();
                    out.push((k, c));
                    i = i + 1;
                }
                proof {
                    lemma_obj_view(out);
                    lemma_obj_view(*v);
                    assert(entries_view(out@) =~= entries_view(v@));
                }
                Tree::Obj(out)
            },
        }
    }
}

} // verus!
