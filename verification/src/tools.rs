//! What the command-line tools are told and what they check: the kind of
//! graph to draw within each function of a call graph, and the analyses
//! that test a program.
use crate::cfg::CFG;
use crate::dom_check::{miss_message, paths_ok, DomChecker};
use crate::dominator_tree::DominatorTree;
use crate::index_set::set_items;
use crate::ir::{Function, FunctionView, Program, ProgramView};
use crate::passes::{report, AnalysisPass, PassError};
use crate::ssa_lower::{dests, is_ssa, twice_message, SSACheck};
use vstd::prelude::*;
use vstd::string::StringExecFns;

verus! {

/// What to draw within each function of a call graph.
#[derive(Clone, Copy, Debug, PartialEq, Eq, Structural)]
pub enum SubgraphTypes {
    /// Nothing: each function is one node.
    Plain,
    /// The control-flow graph.
    CFG,
    /// The dominator tree.
    DominatorTree,
    /// The dominator sets.
    DominatorSets,
}

/// The kind of graph that a word names.
pub open spec fn subgraph_of(s: Seq<char>) -> Option<SubgraphTypes> {
    if s == "none"@ {
        Some(SubgraphTypes::Plain)
    } else if s == "cfg"@ {
        Some(SubgraphTypes::CFG)
    } else if s == "dominatortree"@ || s == "domtree"@ {
        Some(SubgraphTypes::DominatorTree)
    } else if s == "dominatorsets"@ || s == "domsets"@ {
        Some(SubgraphTypes::DominatorSets)
    } else {
        None
    }
}

impl SubgraphTypes {
    /// Reads the kind of graph from a word.
    pub fn from_str(s: &str) -> (r: Result<Self, String>)
        ensures
            match subgraph_of(s@) {
                Some(t) => r == Ok::<SubgraphTypes, String>(t),
                None => r.is_err() && r.unwrap_err()@ == "Unknown subgraph type: "@ + s@,
            },
    {
        let w = s.to_owned();
        if w.eq(&"none".to_owned()) {
            Ok(SubgraphTypes::Plain)
        } else if w.eq(&"cfg".to_owned()) {
            Ok(SubgraphTypes::CFG)
        } else if w.eq(&"dominatortree".to_owned()) || w.eq(&"domtree".to_owned()) {
            Ok(SubgraphTypes::DominatorTree)
        } else if w.eq(&"dominatorsets".to_owned()) || w.eq(&"domsets".to_owned()) {
            Ok(SubgraphTypes::DominatorSets)
        } else {
            let mut m = "Unknown subgraph type: ".to_owned();
            m.append(s);
            Err(m)
        }
    }
}

/// The drawer of call graphs.
#[derive(Clone, Copy, Debug, PartialEq, Eq, Structural)]
pub struct CallDrawer {
    pub sg_ty: SubgraphTypes,
}

impl CallDrawer {
    /// A drawer that draws the given kind of graph within each function.
    pub fn new(sg_ty: SubgraphTypes) -> (r: Self)
        ensures
            r.sg_ty == sg_ty,
    {
        CallDrawer { sg_ty }
    }
}

impl AnalysisPass for SSACheck {
    open spec fn watching(&self) -> bool {
        true
    }

    open spec fn look_rel(&self, f: FunctionView, post: &Self, out: Result<(), Seq<char>>) -> bool {
        match out {
            Ok(_) => is_ssa(f),
            Err(m) => !is_ssa(f) && exists|j: int|
                0 <= j < dests(f.instrs).len() && dests(f.instrs).take(j).no_duplicates()
                    && dests(f.instrs).take(j).contains(#[trigger] dests(f.instrs)[j]) && m
                    == twice_message(dests(f.instrs)[j]),
        }
    }

    open spec fn survey_rel(&self, p: ProgramView, post: &Self, out: Result<(), Seq<char>>) -> bool {
        out == Ok::<(), Seq<char>>(())
    }

    open spec fn close_rel(&self, post: &Self, out: Result<(), Seq<char>>) -> bool {
        out == Ok::<(), Seq<char>>(())
    }

    fn function(&mut self, func: &Function) -> (r: Result<(), String>) {
        Self::check(func)
    }

    fn program(&mut self, prog: &Program) -> (r: Result<(), String>) {
        Ok(())
    }

    fn finish(&mut self) -> (r: Result<(), String>) {
        Ok(())
    }
}

/// What the test of dominator sets may report of a function with a
/// dominator tree: nothing, if for every block every way to it leads
/// through its dominators; else the report of the first block for which
/// one does not.
pub open spec fn doms_checked(tree: &DominatorTree, out: Result<(), Seq<char>>) -> bool {
    match out {
        Ok(_) => forall|i: int|
            0 <= i < tree.cfg.size() ==> #[trigger] paths_ok(
                &tree.cfg,
                set_items(tree.strict_doms@[i]).insert(i as usize),
                seq![0usize],
                i as usize,
                tree.cfg.size(),
            ),
        Err(m) => exists|i: int|
            0 <= i < tree.cfg.size() && !#[trigger] paths_ok(
                &tree.cfg,
                set_items(tree.strict_doms@[i]).insert(i as usize),
                seq![0usize],
                i as usize,
                tree.cfg.size(),
            ) && m == miss_message(i as usize),
    }
}

impl DomChecker {
    /// Tests the dominator sets of a tree against the paths of its graph.
    pub fn check_tree(tree: &DominatorTree) -> (r: Result<(), String>)
        requires
            tree.wf(),
        ensures
            doms_checked(tree, report(r)),
    {
        let n = tree.len();
        let mut i: usize = 0;
        while i < n
            invariant
                i <= n,
                n == tree.cfg.size(),
                tree.wf(),
                forall|j: int|
                    0 <= j < i ==> #[trigger] paths_ok(
                        &tree.cfg,
                        set_items(tree.strict_doms@[j]).insert(j as usize),
                        seq![0usize],
                        j as usize,
                        tree.cfg.size(),
                    ),
            decreases n - i,
        {
            proof {
                let st = crate::dominator_tree::analysis(&tree.cfg).unwrap();
                assert(tree.strict_doms@.len() == tree.nodes());
            }
            let doms = tree.dominators(i);
            match Self::check_paths(i, &tree.cfg, &doms) {
                Ok(()) => {},
                Err(m) => {
                    return Err(m);
                },
            }
            i += 1;
        }
        Ok(())
    }
}

} // verus!
