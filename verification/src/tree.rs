//! The execution tree builder: turns the flat, ordered module list of a
//! playbook into a rooted tree of nodes connected by named output routes.
//!
//! The list order encodes nesting. A node's children are found by scanning
//! the list that follows it: the immediately following module is an implicit
//! child on route `output` when it declares no input, or an explicit child
//! when its input is `<nodeName>.<label>`; any later module whose input is
//! `<nodeName>.<label>` is a child on route `label`, with the list after it
//! as its own scope. A module whose input names no enclosing node is
//! silently excluded, as the playbook language defines.

use vstd::prelude::*;

use crate::playbook::{mods_view, spec_input, spec_name, Module, SpecModule};
use crate::text::{char_index, strs_view, to_chars};

verus! {

/// Model of an execution tree.
#[verifier::ext_equal]
pub struct SpecTree {
    pub module: SpecModule,
    pub children: Seq<(SpecTree, Seq<char>)>,
}

/// An execution node: one module and its children, each under a route label.
#[derive(Debug)]
pub struct PbTree {
    pub module: Module,
    pub children: Vec<(PbTree, String)>,
}

pub open spec fn view_children(cs: Seq<(PbTree, String)>) -> Seq<(SpecTree, Seq<char>)>
    decreases cs,
{
    if cs.len() == 0 {
        Seq::empty()
    } else {
        seq![(view_tree(cs[0].0), cs[0].1@)] + view_children(cs.drop_first())
    }
}

pub open spec fn view_tree(t: PbTree) -> SpecTree
    decreases t,
{
    SpecTree { module: t.module@, children: view_children(t.children@) }
}

impl View for PbTree {
    type V = SpecTree;

    open spec fn view(&self) -> SpecTree {
        view_tree(*self)
    }
}

/// Pointwise description of `view_children`.
pub proof fn lemma_view_children(cs: Seq<(PbTree, String)>)
    ensures
        view_children(cs).len() == cs.len(),
        forall|i: int|
            0 <= i < cs.len() ==> view_children(cs)[i] == (view_tree(cs[i].0), cs[i].1@),
    decreases cs,
{
    if cs.len() > 0 {
        lemma_view_children(cs.drop_first());
    }
}

/// The label under which a module with this `input` hangs off a node named
/// `name`: the part of the input after the first dot, provided the part
/// before it is exactly `name`.
pub open spec fn input_label(name: Seq<char>, input: Option<Seq<char>>) -> Option<Seq<char>> {
    match input {
        Some(s) => {
            let d = char_index(s, '.');
            if d < s.len() && s.subrange(0, d) == name {
                Some(s.subrange(d + 1, s.len() as int))
            } else {
                None
            }
        },
        None => None,
    }
}

/// The node built from `mods[i]`: the module itself, with the list after it
/// as the scope its children are found in.
pub open spec fn tree_at(mods: Seq<SpecModule>, i: int) -> SpecTree
    decreases mods.len() - i, 0int,
    when 0 <= i < mods.len()
{
    SpecTree { module: mods[i], children: spec_children(spec_name(mods[i]), mods, i + 1) }
}

/// The children of a node named `name` whose scope is `mods[lo..]`.
pub open spec fn spec_children(name: Seq<char>, mods: Seq<SpecModule>, lo: int) -> Seq<
    (SpecTree, Seq<char>),
>
    decreases mods.len() - lo, 1int,
    when 0 <= lo <= mods.len()
{
    if lo >= mods.len() {
        Seq::empty()
    } else {
        let first: Seq<(SpecTree, Seq<char>)> = match spec_input(mods[lo]) {
            None => seq![(tree_at(mods, lo), "output"@)],
            Some(_) => match input_label(name, spec_input(mods[lo])) {
                Some(label) => seq![(tree_at(mods, lo), label)],
                None => Seq::empty(),
            },
        };
        first + spec_scan(name, mods, lo + 1)
    }
}

/// The children of a node named `name` found by scanning `mods[j..]` for
/// explicit input references to it.
pub open spec fn spec_scan(name: Seq<char>, mods: Seq<SpecModule>, j: int) -> Seq<
    (SpecTree, Seq<char>),
>
    decreases mods.len() - j, 2int,
    when 0 <= j <= mods.len()
{
    if j >= mods.len() {
        Seq::empty()
    } else {
        match spec_input(mods[j]) {
            Some(_) => match input_label(name, spec_input(mods[j])) {
                Some(label) => seq![(tree_at(mods, j), label)] + spec_scan(name, mods, j + 1),
                None => spec_scan(name, mods, j + 1),
            },
            None => spec_scan(name, mods, j + 1),
        }
    }
}

/// The route label under which a module with input `input` hangs off a node
/// named `name`, if its producer part is exactly `name`.
pub fn match_label(name: &String, input: &str) -> (r: Option<String>)
    ensures
        match r {
            Some(label) => input_label(name@, Some(input@)) == Some(label@),
            None => input_label(name@, Some(input@)) is None,
        },
{
    let chars = to_chars(input);
    let d = crate::text::char_find(&chars, 0, '.');
    proof {
        assert(chars@.skip(0) =~= chars@);
    }
    if d >= chars.len() {
        return None;
    }
    let prefix = crate::text::substring_range(&chars, 0, d);
    if prefix == *name {
        let label = crate::text::substring_range(&chars, d + 1, chars.len());
        Some(label)
    } else {
        None
    }
}

impl PbTree {
    /// Build the execution tree of a playbook: the first module is the
    /// root, the rest of the list is the scope its children are found in.
    pub fn new(mods: &Vec<Module>) -> (r: PbTree)
        requires
            mods@.len() >= 1,
        ensures
            r@ == tree_at(mods_view(mods@), 0),
    {
        let module = mods[0].duplicate();
        let name: String = mods[0].name().to_owned();
        let children = Self::recurse(&name, mods, 1);
        PbTree { module, children }
    }

    /// The children of a node named `input_name` whose scope is `mods[lo..]`.
    fn recurse(input_name: &String, mods: &Vec<Module>, lo: usize) -> (r: Vec<(PbTree, String)>)
        requires
            1 <= lo <= mods@.len(),
        ensures
            view_children(r@) == spec_children(input_name@, mods_view(mods@), lo as int),
        decreases mods@.len() - lo,
    {
        let ghost mv = mods_view(mods@);
        let ghost nm = input_name@;
        let mut ret: Vec<(PbTree, String)> = Vec::new();
        if lo >= mods.len() {
            proof {
                assert(view_children(ret@) =~= spec_children(nm, mv, lo as int));
            }
            return ret;
        }
        let first_label: Option<String> = match mods[lo].input() {
            None => Some(String::from_str("output")),
            Some(s) => match_label(input_name, s),
        };
        match first_label {
            Some(label) => {
                let sub_name: String = mods[lo].name().to_owned();
                let sub = Self::recurse(&sub_name, mods, lo + 1);
                let node = PbTree { module: mods[lo].duplicate(), children: sub };
                ret.push((node, label));
            },
            None => {},
        }
        proof {
            lemma_view_children(ret@);
            assert(spec_children(nm, mv, lo as int) =~= view_children(ret@) + spec_scan(
                nm,
                mv,
                lo + 1,
            ));
        }
        let mut j: usize = lo + 1;
        while j < mods.len()
            invariant
                lo + 1 <= j <= mods@.len(),
                mv == mods_view(mods@),
                nm == input_name@,
                spec_children(nm, mv, lo as int) == view_children(ret@) + spec_scan(
                    nm,
                    mv,
                    j as int,
                ),
            decreases mods@.len() - j,
        {
            let ghost ret0 = ret@;
            proof {
                assert(mv[j as int] == mods@[j as int]@);
            }
            let inp = mods[j].input();
            match inp {
                None => {
                    proof {
                        assert(spec_scan(nm, mv, j as int) == spec_scan(nm, mv, j + 1));
                    }
                },
                Some(s) => {
                    match match_label(input_name, s) {
                        Some(label) => {
                            let sub_name: String = mods[j].name().to_owned();
                            let sub = Self::recurse(&sub_name, mods, j + 1);
                            let node = PbTree { module: mods[j].duplicate(), children: sub };
                            let ghost nv = view_tree(node);
                            let ghost lv = label@;
                            ret.push((node, label));
                            proof {
                                lemma_view_children(ret0);
                                lemma_view_children(ret@);
                                assert(nv == tree_at(mv, j as int));
                                assert(view_children(ret@) =~= view_children(ret0) + seq![
                                    (nv, lv),
                                ]);
                                assert(spec_scan(nm, mv, j as int) == seq![
                                    (tree_at(mv, j as int), lv),
                                ] + spec_scan(nm, mv, j + 1));
                                assert(view_children(ret0) + spec_scan(nm, mv, j as int)
                                    =~= view_children(ret@) + spec_scan(nm, mv, j + 1));
                            }
                        },
                        None => {
                            proof {
                                assert(spec_scan(nm, mv, j as int) == spec_scan(nm, mv, j + 1));
                            }
                        },
                    }
                },
            }
            j += 1;
        }
        proof {
            assert(spec_scan(nm, mv, mods@.len() as int) =~= Seq::<(SpecTree, Seq<char>)>::empty());
            assert(view_children(ret@) + spec_scan(nm, mv, j as int) =~= view_children(ret@));
        }
        ret
    }
}

} // verus!
