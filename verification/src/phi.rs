//! The placement of merge readers: a variable needs one at every block of
//! the dominance frontier of a block that writes it, or that reads it
//! through a merge reader. The variables are taken in the order in which
//! the blocks first write them, each with the type that it is written
//! with, so the readers of a block stand in that order and bear that type.
use crate::basic_block::{BasicBlock, BlockView};
use crate::dominator_tree::{lemma_frontier_in_range, DominatorTree};
use crate::index_set::{set_clone, set_to_vec, set_insert, set_items, set_new, set_pop};
use crate::instr::InstrExt;
use crate::ir::{lemma_deep_index, InstrView, Instruction, Type};
use crate::type_map::{
    distinct_keys, has_key, lemma_insert_distinct, lemma_insert_keys, lemma_insert_twice,
    map_entries, map_insert, map_new, map_pairs, pairs_view, without_key,
};
use linked_hash_map::LinkedHashMap;
use linked_hash_set::LinkedHashSet;
use vstd::prelude::*;

verus! {

/// The merge readers of each block: the variables, each with its type.
pub struct PhiNodes {
    pub nodes: Vec<LinkedHashMap<String, Type>>,
}

/// Whether a block writes a variable.
pub open spec fn writes(b: BlockView, v: Seq<char>) -> bool {
    exists|i: int| 0 <= i < b.all().len() && (#[trigger] b.all()[i]).dest() == Some(v)
}

/// The merge readers of each block, as lists of entries.
pub open spec fn readers(nodes: Seq<LinkedHashMap<String, Type>>) -> Seq<Seq<(Seq<char>, Type)>> {
    Seq::new(nodes.len(), |i: int| map_entries(nodes[i]))
}

/// Whether every block of the dominance frontier of block `d` has a merge
/// reader for the variable.
pub open spec fn served(
    phi: Seq<Seq<(Seq<char>, Type)>>,
    tree: &DominatorTree,
    d: int,
    v: Seq<char>,
) -> bool {
    forall|f: usize| #[trigger]
        set_items(tree.dominance_frontiers@[d]).contains(f) ==> has_key(phi[f as int], v)
}

/// Whether the merge readers are complete: every block that writes a
/// variable, or has a merge reader for it, is served.
pub open spec fn closed(phi: Seq<Seq<(Seq<char>, Type)>>, tree: &DominatorTree) -> bool {
    &&& phi.len() == tree.cfg.size()
    &&& forall|d: int, v: Seq<char>|
        #![trigger writes(tree.cfg.func@.blocks[d], v)]
        #![trigger has_key(phi[d], v)]
        0 <= d < phi.len() && (writes(tree.cfg.func@.blocks[d], v) || has_key(phi[d], v))
            ==> served(phi, tree, d, v)
}

/// Whether `c` is a run of blocks that starts at a block that writes the
/// variable and goes on, each time, to a block of the dominance frontier
/// of the block before.
pub open spec fn chain_ok(tree: &DominatorTree, v: Seq<char>, c: Seq<usize>) -> bool {
    &&& c.len() >= 1
    &&& forall|k: int| 0 <= k < c.len() ==> #[trigger] c[k] < tree.cfg.size()
    &&& writes(tree.cfg.func@.blocks[c[0] as int], v)
    &&& forall|k: int|
        0 <= k < c.len() - 1 ==> set_items(tree.dominance_frontiers@[c[k] as int]).contains(
            #[trigger] c[k + 1],
        )
}

/// Whether block `d` writes the variable, or is reached from a block that
/// writes it by steps to dominance frontiers.
pub open spec fn sourced(tree: &DominatorTree, v: Seq<char>, d: usize) -> bool {
    exists|c: Seq<usize>| #[trigger] chain_ok(tree, v, c) && c.last() == d
}

/// Whether block `f` is in the iterated dominance frontier of the blocks
/// that write the variable: reached from one of them by one or more steps
/// to dominance frontiers.
pub open spec fn merges(tree: &DominatorTree, v: Seq<char>, f: usize) -> bool {
    exists|c: Seq<usize>| #[trigger] chain_ok(tree, v, c) && c.len() >= 2 && c.last() == f
}

/// Whether the merge readers are those that are needed and no others: a
/// block has one for a variable exactly if it is in the iterated dominance
/// frontier of the blocks that write the variable.
pub open spec fn exact(phi: Seq<Seq<(Seq<char>, Type)>>, tree: &DominatorTree) -> bool {
    &&& phi.len() == tree.cfg.size()
    &&& forall|f: int, v: Seq<char>|
        0 <= f < phi.len() ==> (#[trigger] has_key(phi[f], v) <==> merges(tree, v, f as usize))
}

/// Whether no block has two merge readers for one variable.
pub open spec fn single(phi: Seq<Seq<(Seq<char>, Type)>>) -> bool {
    forall|f: int| 0 <= f < phi.len() ==> distinct_keys(#[trigger] phi[f])
}

/// Whether every merge reader is needed.
pub open spec fn sound(phi: Seq<Seq<(Seq<char>, Type)>>, tree: &DominatorTree) -> bool {
    forall|f: int, v: Seq<char>|
        0 <= f < phi.len() && #[trigger] has_key(phi[f], v) ==> merges(tree, v, f as usize)
}

/// A run of blocks, one step on.
pub proof fn lemma_chain_push(tree: &DominatorTree, v: Seq<char>, c: Seq<usize>, f: usize)
    requires
        chain_ok(tree, v, c),
        f < tree.cfg.size(),
        set_items(tree.dominance_frontiers@[c.last() as int]).contains(f),
    ensures
        chain_ok(tree, v, c.push(f)),
        merges(tree, v, f),
        sourced(tree, v, f),
{
    let n = c.push(f);
    assert forall|k: int| 0 <= k < n.len() - 1 implies set_items(
        tree.dominance_frontiers@[n[k] as int],
    ).contains(#[trigger] n[k + 1]) by {
        if k < c.len() - 1 {
            assert(n[k + 1] == c[k + 1]);
        }
    }
    assert(n[0] == c[0]);
    assert(n.last() == f);
    assert forall|k: int| 0 <= k < n.len() implies #[trigger] n[k] < tree.cfg.size() by {
        if k < c.len() {
            assert(n[k] == c[k]);
        }
    }
    assert(chain_ok(tree, v, n) && n.len() >= 2);
}

/// Complete merge readers hold every reader that is needed.
pub proof fn lemma_closed_holds_all(
    phi: Seq<Seq<(Seq<char>, Type)>>,
    tree: &DominatorTree,
    v: Seq<char>,
    c: Seq<usize>,
)
    requires
        closed(phi, tree),
        chain_ok(tree, v, c),
        c.len() >= 2,
    ensures
        has_key(phi[c.last() as int], v),
    decreases c.len(),
{
    let d = c[c.len() - 2];
    let f = c.last();
    assert(set_items(tree.dominance_frontiers@[d as int]).contains(c[c.len() - 2 + 1]));
    if c.len() == 2 {
        assert(writes(tree.cfg.func@.blocks[d as int], v));
        assert(served(phi, tree, d as int, v));
    } else {
        let rest = c.drop_last();
        assert(chain_ok(tree, v, rest)) by {
            assert forall|k: int| 0 <= k < rest.len() - 1 implies set_items(
                tree.dominance_frontiers@[rest[k] as int],
            ).contains(#[trigger] rest[k + 1]) by {
                assert(rest[k + 1] == c[k + 1]);
            }
        }
        lemma_closed_holds_all(phi, tree, v, rest);
        assert(has_key(phi[d as int], v));
        assert(served(phi, tree, d as int, v));
    }
}

/// How many blocks have no merge reader for a variable.
pub open spec fn missing(phi: Seq<Seq<(Seq<char>, Type)>>, v: Seq<char>) -> nat
    decreases phi.len(),
{
    if phi.len() == 0 {
        0
    } else {
        missing(phi.drop_last(), v) + if has_key(phi.last(), v) {
            0nat
        } else {
            1nat
        }
    }
}

/// When one block gets a merge reader for a variable, one block less lacks
/// it; when a block that has one changes otherwise, as many lack it.
pub proof fn lemma_missing_update(
    phi: Seq<Seq<(Seq<char>, Type)>>,
    f: int,
    e: Seq<(Seq<char>, Type)>,
    v: Seq<char>,
)
    requires
        0 <= f < phi.len(),
        has_key(e, v),
    ensures
        has_key(phi[f], v) ==> missing(phi.update(f, e), v) == missing(phi, v),
        !has_key(phi[f], v) ==> missing(phi.update(f, e), v) + 1 == missing(phi, v),
    decreases phi.len(),
{
    let q = phi.update(f, e);
    if f == phi.len() - 1 {
        assert(q.drop_last() =~= phi.drop_last());
    } else {
        lemma_missing_update(phi.drop_last(), f, e, v);
        assert(q.drop_last() =~= phi.drop_last().update(f, e));
    }
}

/// The variables that the first `k` instructions write, each with the
/// type of its last write, in the order of their last writes.
pub open spec fn written(all: Seq<InstrView>, k: int) -> Seq<(Seq<char>, Type)>
    decreases k,
{
    if k <= 0 {
        seq![]
    } else {
        let w = written(all, k - 1);
        match (all[k - 1].dest(), all[k - 1].get_type()) {
            (Some(d), Some(t)) => without_key(w, d).push((d, t)),
            _ => w,
        }
    }
}

/// One entry of the list of definitions: a variable, a type, and the
/// blocks that write the variable with the type.
pub struct DefView {
    pub name: Seq<char>,
    pub ty: Type,
    pub blocks: Set<usize>,
}

/// Whether entry `k` of a list of definitions is that of the variable with
/// the type.
pub open spec fn entry_of(defs: Seq<DefView>, k: int, name: Seq<char>, ty: Type) -> bool {
    defs[k].name == name && defs[k].ty == ty
}

/// Whether entry `k` is the first of the variable with the type.
pub open spec fn first_of(defs: Seq<DefView>, k: int, name: Seq<char>, ty: Type) -> bool {
    0 <= k < defs.len() && entry_of(defs, k, name, ty) && forall|j: int|
        0 <= j < k ==> !#[trigger] entry_of(defs, j, name, ty)
}

/// The list of definitions after block `b` was listed as writing the
/// variable with the type: the block joins the first entry of the variable
/// with the type, or a new entry at the end if there is none.
pub open spec fn noted(defs: Seq<DefView>, name: Seq<char>, ty: Type, b: usize) -> Seq<DefView> {
    if exists|k: int| first_of(defs, k, name, ty) {
        let k = choose|k: int| first_of(defs, k, name, ty);
        defs.update(k, DefView { blocks: defs[k].blocks.insert(b), ..defs[k] })
    } else {
        defs.push(DefView { name, ty, blocks: set![b] })
    }
}

/// The list of definitions after block `b` was listed for the first `i`
/// of the variables that it writes.
pub open spec fn noted_all(defs: Seq<DefView>, w: Seq<(Seq<char>, Type)>, b: usize, i: int) -> Seq<
    DefView,
>
    decreases i,
{
    if i <= 0 {
        defs
    } else {
        noted(noted_all(defs, w, b, i - 1), w[i - 1].0, w[i - 1].1, b)
    }
}

/// The list of definitions of the first `b` blocks: the blocks in rising
/// order, the variables of each in the order of their last writes in it.
pub open spec fn defs_of(blocks: Seq<BlockView>, b: int) -> Seq<DefView>
    decreases b,
{
    if b <= 0 {
        seq![]
    } else {
        let w = written(blocks[b - 1].all(), blocks[b - 1].all().len() as int);
        noted_all(defs_of(blocks, b - 1), w, (b - 1) as usize, w.len() as int)
    }
}

/// Whether `c` is a run of blocks along which the placement for one entry
/// of the list of definitions spreads: it starts at a block of the entry,
/// goes on, each time, to a block of the dominance frontier of the block
/// before, and every block between its first and its last had no merge
/// reader for the variable before.
pub open spec fn spread(
    tree: &DominatorTree,
    phi: Seq<Seq<(Seq<char>, Type)>>,
    v: Seq<char>,
    w: Set<usize>,
    c: Seq<usize>,
) -> bool {
    &&& c.len() >= 2
    &&& forall|k: int| 0 <= k < c.len() ==> #[trigger] c[k] < tree.cfg.size()
    &&& w.contains(c[0])
    &&& forall|k: int|
        0 <= k < c.len() - 1 ==> set_items(tree.dominance_frontiers@[c[k] as int]).contains(
            #[trigger] c[k + 1],
        )
    &&& forall|k: int| 0 < k < c.len() - 1 ==> !has_key(phi[(#[trigger] c[k]) as int], v)
}

/// Whether the placement for one entry reaches block `f`.
pub open spec fn touched(
    tree: &DominatorTree,
    phi: Seq<Seq<(Seq<char>, Type)>>,
    v: Seq<char>,
    w: Set<usize>,
    f: usize,
) -> bool {
    exists|c: Seq<usize>| #[trigger] spread(tree, phi, v, w, c) && c.last() == f
}

/// The merge readers after the placement for one entry: every block that
/// the placement reaches gets the variable with the type of the entry as
/// its last reader, in place of the reader that it had for the variable.
pub open spec fn phase(
    tree: &DominatorTree,
    phi: Seq<Seq<(Seq<char>, Type)>>,
    v: Seq<char>,
    ty: Type,
    w: Set<usize>,
) -> Seq<Seq<(Seq<char>, Type)>> {
    Seq::new(
        phi.len(),
        |f: int|
            if touched(tree, phi, v, w, f as usize) {
                without_key(phi[f], v).push((v, ty))
            } else {
                phi[f]
            },
    )
}

/// The merge readers after the placement for the first `k` entries of a
/// list of definitions.
pub open spec fn placed(tree: &DominatorTree, defs: Seq<DefView>, k: int) -> Seq<
    Seq<(Seq<char>, Type)>,
>
    decreases k,
{
    if k <= 0 {
        Seq::new(tree.cfg.size(), |f: int| Seq::<(Seq<char>, Type)>::empty())
    } else {
        phase(
            tree,
            placed(tree, defs, k - 1),
            defs[k - 1].name,
            defs[k - 1].ty,
            defs[k - 1].blocks,
        )
    }
}

/// The merge readers of the function of a dominator tree: the placement
/// for every entry of its list of definitions, in order. So the readers of
/// a block stand in the order of the entries that placed them last, each
/// with the type of that entry.
pub open spec fn merge_readers(tree: &DominatorTree) -> Seq<Seq<(Seq<char>, Type)>> {
    let defs = defs_of(tree.cfg.func@.blocks, tree.cfg.size() as int);
    placed(tree, defs, defs.len() as int)
}

/// Whether block `x` passes the placement on: it is a block of the entry,
/// or one that got its reader for the variable in this placement.
pub open spec fn spreads(
    phi: Seq<Seq<(Seq<char>, Type)>>,
    v: Seq<char>,
    w: Set<usize>,
    done: Set<usize>,
    x: usize,
) -> bool {
    w.contains(x) || (done.contains(x) && !has_key(phi[x as int], v))
}

/// Whether every block of the dominance frontier of `x` is among `done`.
pub open spec fn covered(tree: &DominatorTree, done: Set<usize>, x: usize) -> bool {
    forall|f: usize| #[trigger]
        set_items(tree.dominance_frontiers@[x as int]).contains(f) ==> done.contains(f)
}

/// The readers of block `f` while a placement goes on: those after the
/// placement if the placement has been at the block, else those before.
pub open spec fn entries_at(
    phi: Seq<Seq<(Seq<char>, Type)>>,
    v: Seq<char>,
    ty: Type,
    done: Set<usize>,
    f: int,
) -> Seq<(Seq<char>, Type)> {
    if done.contains(f as usize) {
        without_key(phi[f], v).push((v, ty))
    } else {
        phi[f]
    }
}

/// The placement reaches the dominance frontier of every block that
/// passes it on.
pub proof fn lemma_spread_push(
    tree: &DominatorTree,
    phi: Seq<Seq<(Seq<char>, Type)>>,
    v: Seq<char>,
    w: Set<usize>,
    d: usize,
    f: usize,
)
    requires
        d < tree.cfg.size(),
        f < tree.cfg.size(),
        w.contains(d) || (touched(tree, phi, v, w, d) && !has_key(phi[d as int], v)),
        set_items(tree.dominance_frontiers@[d as int]).contains(f),
    ensures
        touched(tree, phi, v, w, f),
{
    if w.contains(d) {
        let c = seq![d, f];
        assert(c[0int + 1] == f);
        assert(spread(tree, phi, v, w, c));
        assert(c.last() == f);
    } else {
        let c = choose|c: Seq<usize>| #[trigger] spread(tree, phi, v, w, c) && c.last() == d;
        let n = c.push(f);
        assert forall|k: int| 0 <= k < n.len() - 1 implies set_items(
            tree.dominance_frontiers@[n[k] as int],
        ).contains(#[trigger] n[k + 1]) by {
            if k < c.len() - 1 {
                assert(n[k + 1] == c[k + 1]);
            }
        }
        assert forall|k: int| 0 < k < n.len() - 1 implies !has_key(
            phi[(#[trigger] n[k]) as int],
            v,
        ) by {
            if k < c.len() - 1 {
                assert(n[k] == c[k]);
            }
        }
        assert forall|k: int| 0 <= k < n.len() implies #[trigger] n[k] < tree.cfg.size() by {
            if k < c.len() {
                assert(n[k] == c[k]);
            }
        }
        assert(n[0] == c[0]);
        assert(spread(tree, phi, v, w, n));
        assert(n.last() == f);
    }
}

/// A placement that has come to rest has been at every block that it
/// reaches.
pub proof fn lemma_spread_done(
    tree: &DominatorTree,
    phi: Seq<Seq<(Seq<char>, Type)>>,
    v: Seq<char>,
    w: Set<usize>,
    done: Set<usize>,
    c: Seq<usize>,
)
    requires
        spread(tree, phi, v, w, c),
        forall|x: usize|
            x < tree.cfg.size() && #[trigger] spreads(phi, v, w, done, x) ==> covered(
                tree,
                done,
                x,
            ),
    ensures
        done.contains(c.last()),
    decreases c.len(),
{
    let last = c.len() - 1;
    if c.len() == 2 {
        assert(spreads(phi, v, w, done, c[0]));
        assert(covered(tree, done, c[0]));
        assert(set_items(tree.dominance_frontiers@[c[0] as int]).contains(c[0int + 1]));
    } else {
        let rest = c.drop_last();
        assert(spread(tree, phi, v, w, rest)) by {
            assert forall|k: int| 0 <= k < rest.len() - 1 implies set_items(
                tree.dominance_frontiers@[rest[k] as int],
            ).contains(#[trigger] rest[k + 1]) by {
                assert(rest[k + 1] == c[k + 1]);
            }
            assert forall|k: int| 0 < k < rest.len() - 1 implies !has_key(
                phi[(#[trigger] rest[k]) as int],
                v,
            ) by {
                assert(rest[k] == c[k]);
            }
        }
        lemma_spread_done(tree, phi, v, w, done, rest);
        let d = c[last - 1];
        assert(rest.last() == d);
        assert(!has_key(phi[c[last - 1] as int], v));
        assert(spreads(phi, v, w, done, d));
        assert(covered(tree, done, d));
        assert(set_items(tree.dominance_frontiers@[c[last - 1] as int]).contains(c[last - 1 + 1]));
    }
}

/// The list of definitions as it is walked: parallel lists of the
/// variables, their types, and for each the set of the blocks that write
/// it.
pub struct Defs {
    pub names: Vec<String>,
    pub types: Vec<Type>,
    pub sets: Vec<LinkedHashSet<usize>>,
}

impl Defs {
    /// The list of definitions.
    pub open spec fn view(&self) -> Seq<DefView> {
        Seq::new(
            self.names@.len(),
            |k: int|
                DefView {
                    name: self.names@[k]@,
                    ty: self.types@[k],
                    blocks: set_items(self.sets@[k]),
                },
        )
    }

    /// The lists are as long as one another, and only blocks are listed.
    pub open spec fn wf(&self, n: nat) -> bool {
        &&& self.names@.len() == self.types@.len()
        &&& self.names@.len() == self.sets@.len()
        &&& forall|k: int, d: usize|
            0 <= k < self.sets@.len() && #[trigger] set_items(self.sets@[k]).contains(d) ==> d < n
        &&& forall|k: int| 0 <= k < self.sets@.len() ==> (#[trigger] set_items(self.sets@[k])).finite()
    }

    /// Whether every block listed for a variable writes it.
    pub open spec fn true_to(&self, bv: Seq<BlockView>) -> bool {
        forall|k: int, d: usize|
            0 <= k < self.sets@.len() && #[trigger] set_items(self.sets@[k]).contains(d) ==> d
                < bv.len() && writes(bv[d as int], self.names@[k]@)
    }

    /// Whether block `d` is listed as writing the variable.
    pub open spec fn lists(&self, d: usize, v: Seq<char>) -> bool {
        exists|k: int|
            0 <= k < self.names@.len() && (#[trigger] self.names@[k])@ == v && set_items(
                self.sets@[k],
            ).contains(d)
    }
}

/// Whether only blocks are listed, and finitely many for each entry.
pub open spec fn defs_wf(dv: Seq<DefView>, n: nat) -> bool {
    &&& forall|k: int, d: usize| 0 <= k < dv.len() && #[trigger] dv[k].blocks.contains(d) ==> d < n
    &&& forall|k: int| 0 <= k < dv.len() ==> (#[trigger] dv[k]).blocks.finite()
}

/// Whether every block listed for a variable writes it.
pub open spec fn defs_true(dv: Seq<DefView>, bv: Seq<BlockView>) -> bool {
    forall|k: int, d: usize|
        0 <= k < dv.len() && #[trigger] dv[k].blocks.contains(d) ==> d < bv.len() && writes(
            bv[d as int],
            dv[k].name,
        )
}

/// Whether block `d` is listed as writing the variable.
pub open spec fn defs_list_block(dv: Seq<DefView>, d: usize, v: Seq<char>) -> bool {
    exists|k: int| 0 <= k < dv.len() && (#[trigger] dv[k]).name == v && dv[k].blocks.contains(d)
}

/// Listing a block that writes a variable keeps the list in order, lists
/// the block for the variable, and keeps what was listed.
pub proof fn lemma_noted(dv: Seq<DefView>, name: Seq<char>, ty: Type, b: usize, bv: Seq<BlockView>)
    requires
        defs_wf(dv, bv.len()),
        defs_true(dv, bv),
        b < bv.len(),
        writes(bv[b as int], name),
    ensures
        defs_wf(noted(dv, name, ty, b), bv.len()),
        defs_true(noted(dv, name, ty, b), bv),
        defs_list_block(noted(dv, name, ty, b), b, name),
        forall|d: usize, v: Seq<char>|
            defs_list_block(dv, d, v) ==> defs_list_block(noted(dv, name, ty, b), d, v),
{
    let out = noted(dv, name, ty, b);
    if exists|k: int| first_of(dv, k, name, ty) {
        let k = choose|k: int| first_of(dv, k, name, ty);
        assert(out[k].name == name && out[k].blocks.contains(b));
        assert forall|j: int, d: usize|
            0 <= j < out.len() && #[trigger] out[j].blocks.contains(d) implies d < bv.len()
            && writes(bv[d as int], out[j].name) by {
            if j != k || d != b {
                assert(dv[j].blocks.contains(d));
            }
        }
        assert forall|j: int| 0 <= j < out.len() implies (#[trigger] out[j]).blocks.finite() by {
            assert(dv[j].blocks.finite());
        }
        assert forall|d: usize, v: Seq<char>| defs_list_block(dv, d, v) implies defs_list_block(
            out,
            d,
            v,
        ) by {
            let j = choose|j: int|
                0 <= j < dv.len() && (#[trigger] dv[j]).name == v && dv[j].blocks.contains(d);
            assert(out[j].name == v && out[j].blocks.contains(d));
        }
    } else {
        let last = out.len() - 1;
        assert(out[last].name == name && out[last].blocks.contains(b));
        assert forall|j: int, d: usize|
            0 <= j < out.len() && #[trigger] out[j].blocks.contains(d) implies d < bv.len()
            && writes(bv[d as int], out[j].name) by {
            if j < last {
                assert(dv[j].blocks.contains(d));
            }
        }
        assert forall|j: int| 0 <= j < out.len() implies (#[trigger] out[j]).blocks.finite() by {
            if j < last {
                assert(dv[j].blocks.finite());
            }
        }
        assert forall|d: usize, v: Seq<char>| defs_list_block(dv, d, v) implies defs_list_block(
            out,
            d,
            v,
        ) by {
            let j = choose|j: int|
                0 <= j < dv.len() && (#[trigger] dv[j]).name == v && dv[j].blocks.contains(d);
            assert(out[j].name == v && out[j].blocks.contains(d));
        }
    }
}

/// The entries of a map from variables with their types to the blocks that
/// write them, in the order in which the keys were first inserted.
pub uninterp spec fn def_entries(
    m: LinkedHashMap<(String, Type), LinkedHashSet<usize>>,
) -> Seq<DefView>;

/// `LinkedHashMap::new`: a map without entries.
#[verifier::external_body]
pub(crate) fn defs_new() -> (m: LinkedHashMap<(String, Type), LinkedHashSet<usize>>)
    ensures
        def_entries(m) == Seq::<DefView>::empty(),
{
    LinkedHashMap::new()
}

/// `LinkedHashMap::entry`, `Entry::or_insert_with` and
/// `LinkedHashSet::insert`: the block joins the set of the key where the
/// key has an entry, which stays in its place; else a new entry with the
/// block alone comes last.
#[verifier::external_body]
pub(crate) fn defs_note(
    m: &mut LinkedHashMap<(String, Type), LinkedHashSet<usize>>,
    name: String,
    ty: Type,
    b: usize,
)
    ensures
        def_entries(*final(m)) == noted(def_entries(*old(m)), name@, ty, b),
{
    m.entry((name, ty)).or_insert_with(LinkedHashSet::new).insert(b);
}

/// `LinkedHashMap::iter`: the entries in their order, each copied.
#[verifier::external_body]
pub(crate) fn defs_list(m: &LinkedHashMap<(String, Type), LinkedHashSet<usize>>) -> (r: Vec<
    (String, Type, LinkedHashSet<usize>),
>)
    ensures
        r@.len() == def_entries(*m).len(),
        forall|k: int|
            0 <= k < r@.len() ==> (#[trigger] r@[k]).0@ == def_entries(*m)[k].name && r@[k].1
                == def_entries(*m)[k].ty && set_items(r@[k].2) == def_entries(*m)[k].blocks,
{
    m.iter().map(|(k, s)| (k.0.clone(), k.1.clone(), s.clone())).collect()
}

/// The variables that a block writes, each with the type of its last
/// write, in the order of their last writes.
fn block_writes(block: &BasicBlock) -> (w: LinkedHashMap<String, Type>)
    ensures
        forall|v: Seq<char>| writes(block@, v) <==> has_key(map_entries(w), v),
        map_entries(w) == written(block@.all(), block@.all().len() as int),
{
    let all = block.iter();
    let ghost view = block@.all();
    let mut w = map_new();
    let mut i: usize = 0;
    while i < all.len()
        invariant
            i <= all.len(),
            view == all.deep_view(),
            forall|v: Seq<char>|
                has_key(map_entries(w), v) <==> exists|j: int|
                    0 <= j < i && (#[trigger] view[j]).dest() == Some(v),
            map_entries(w) == written(view, i as int),
        decreases all.len() - i,
    {
        proof {
            lemma_deep_index(all);
        }
        let ghost before = map_entries(w);
        match (all[i].dest(), all[i].get_type()) {
            (Some(d), Some(t)) => {
                map_insert(&mut w, d, t);
                proof {
                    lemma_insert_keys(before, d@, t);
                    assert forall|v: Seq<char>|
                        has_key(map_entries(w), v) <==> exists|j: int|
                            0 <= j < i + 1 && (#[trigger] view[j]).dest() == Some(v) by {
                        if has_key(before, v) {
                            let j = choose|j: int|
                                0 <= j < i && (#[trigger] view[j]).dest() == Some(v);
                            assert(view[j].dest() == Some(v));
                        }
                        if v == d@ {
                            assert(view[i as int].dest() == Some(v));
                        }
                        if exists|j: int| 0 <= j < i + 1 && (#[trigger] view[j]).dest() == Some(v) {
                            let j = choose|j: int|
                                0 <= j < i + 1 && (#[trigger] view[j]).dest() == Some(v);
                            if j < i {
                                assert(has_key(before, v));
                            }
                        }
                    }
                }
            },
            _ => {
                proof {
                    assert(view[i as int].dest().is_none());
                    assert forall|v: Seq<char>|
                        has_key(map_entries(w), v) <==> exists|j: int|
                            0 <= j < i + 1 && (#[trigger] view[j]).dest() == Some(v) by {
                        if has_key(before, v) {
                            let j = choose|j: int|
                                0 <= j < i && (#[trigger] view[j]).dest() == Some(v);
                            assert(view[j].dest() == Some(v));
                        }
                        if exists|j: int| 0 <= j < i + 1 && (#[trigger] view[j]).dest() == Some(v) {
                            let j = choose|j: int|
                                0 <= j < i + 1 && (#[trigger] view[j]).dest() == Some(v);
                            assert(j < i);
                        }
                    }
                }
            },
        }
        i += 1;
    }
    w
}

/// For each variable the blocks that write it.
fn collect_defs(blocks: &Vec<BasicBlock>) -> (defs: Defs)
    ensures
        defs.wf(blocks.len() as nat),
        defs.true_to(blocks.deep_view()),
        forall|d: usize, v: Seq<char>|
            d < blocks.len() && writes(blocks[d as int]@, v) ==> defs.lists(d, v),
        defs@ == defs_of(blocks.deep_view(), blocks.len() as int),
{
    let mut m = defs_new();
    let n = blocks.len();
    let ghost bv = blocks.deep_view();
    proof {
        lemma_deep_index(*blocks);
    }
    let mut b: usize = 0;
    while b < n
        invariant
            b <= n,
            n == blocks.len(),
            bv == blocks.deep_view(),
            defs_true(def_entries(m), bv),
            defs_wf(def_entries(m), n as nat),
            forall|d: usize, v: Seq<char>|
                d < b && writes(blocks[d as int]@, v) ==> defs_list_block(def_entries(m), d, v),
            def_entries(m) == defs_of(bv, b as int),
        decreases n - b,
    {
        let w = block_writes(&blocks[b]);
        let pairs = map_pairs(&w);
        let ghost view = pairs_view(pairs@);
        let ghost base = def_entries(m);
        let mut i: usize = 0;
        proof {
            lemma_deep_index(*blocks);
            assert(view.len() == pairs@.len());
        }
        while i < pairs.len()
            invariant
                i <= pairs.len(),
                view.len() == pairs@.len(),
                def_entries(m) == noted_all(base, view, b, i as int),
                b < n,
                n == blocks.len(),
                bv == blocks.deep_view(),
                defs_true(def_entries(m), bv),
                forall|v: Seq<char>| writes(blocks[b as int]@, v) <==> has_key(view, v),
                defs_wf(def_entries(m), n as nat),
                view == pairs_view(pairs@),
                forall|d: usize, v: Seq<char>|
                    d < b && writes(blocks[d as int]@, v) ==> defs_list_block(
                        def_entries(m),
                        d,
                        v,
                    ),
                forall|j: int|
                    0 <= j < i ==> defs_list_block(def_entries(m), b, (#[trigger] view[j]).0),
            decreases pairs.len() - i,
        {
            let name = pairs[i].0.clone();
            let ty = pairs[i].1.clone();
            let ghost before = def_entries(m);
            proof {
                assert(view[i as int].0 == name@);
                assert(has_key(view, name@));
                lemma_deep_index(*blocks);
                assert(bv[b as int] == blocks[b as int]@);
                lemma_noted(before, name@, ty, b, bv);
            }
            defs_note(&mut m, name, ty, b);
            proof {
                assert forall|d: usize, v: Seq<char>|
                    d < b && writes(blocks[d as int]@, v) implies defs_list_block(
                    def_entries(m),
                    d,
                    v,
                ) by {
                    assert(defs_list_block(before, d, v));
                }
                assert forall|j: int| 0 <= j < i + 1 implies defs_list_block(
                    def_entries(m),
                    b,
                    (#[trigger] view[j]).0,
                ) by {
                    if j < i {
                        assert(defs_list_block(before, b, view[j].0));
                    }
                }
            }
            i += 1;
        }
        proof {
            assert(bv[b as int] == blocks[b as int]@);
            assert(view == written(bv[b as int].all(), bv[b as int].all().len() as int));
            assert forall|d: usize, v: Seq<char>|
                d < b + 1 && writes(blocks[d as int]@, v) implies defs_list_block(
                def_entries(m),
                d,
                v,
            ) by {
                if d == b {
                    assert(has_key(map_entries(w), v));
                    let j = choose|j: int| 0 <= j < view.len() && (#[trigger] view[j]).0 == v;
                    assert(defs_list_block(def_entries(m), b, view[j].0));
                }
            }
        }
        b += 1;
    }
    let list = defs_list(&m);
    let ghost dv = def_entries(m);
    let mut defs = Defs { names: Vec::new(), types: Vec::new(), sets: Vec::new() };
    let mut k: usize = 0;
    while k < list.len()
        invariant
            k <= list.len(),
            list@.len() == dv.len(),
            forall|j: int|
                0 <= j < list@.len() ==> (#[trigger] list@[j]).0@ == dv[j].name && list@[j].1
                    == dv[j].ty && set_items(list@[j].2) == dv[j].blocks,
            defs.names@.len() == k,
            defs.types@.len() == k,
            defs.sets@.len() == k,
            forall|j: int|
                0 <= j < k ==> (#[trigger] defs.names@[j])@ == dv[j].name && defs.types@[j]
                    == dv[j].ty && set_items(defs.sets@[j]) == dv[j].blocks,
        decreases list.len() - k,
    {
        let ghost before = defs;
        let name = list[k].0.clone();
        let ty = list[k].1.clone();
        let set = set_clone(&list[k].2);
        proof {
            assert(list@[k as int].0@ == dv[k as int].name);
            assert(name@ == dv[k as int].name && ty == dv[k as int].ty && set_items(set)
                == dv[k as int].blocks);
        }
        defs.names.push(name);
        defs.types.push(ty);
        defs.sets.push(set);
        proof {
            assert forall|j: int| 0 <= j < k + 1 implies (#[trigger] defs.names@[j])@
                == dv[j].name && defs.types@[j] == dv[j].ty && set_items(defs.sets@[j])
                == dv[j].blocks by {
                if j < k {
                    assert(defs.names@[j] == before.names@[j]);
                    assert(defs.types@[j] == before.types@[j]);
                    assert(defs.sets@[j] == before.sets@[j]);
                }
            }
        }
        k += 1;
    }
    proof {
        assert(defs@ =~= dv);
        assert forall|j: int, d: usize|
            0 <= j < defs.sets@.len() && #[trigger] set_items(defs.sets@[j]).contains(
                d,
            ) implies d < n && writes(bv[d as int], defs.names@[j]@) by {
            assert(defs.names@[j]@ == dv[j].name);
            assert(dv[j].blocks.contains(d));
        }
        assert forall|j: int| 0 <= j < defs.sets@.len() implies (#[trigger] set_items(
            defs.sets@[j],
        )).finite() by {
            assert(defs.names@[j]@ == dv[j].name);
            assert(dv[j].blocks.finite());
        }
        assert forall|d: usize, v: Seq<char>|
            d < blocks.len() && writes(blocks[d as int]@, v) implies defs.lists(d, v) by {
            assert(defs_list_block(dv, d, v));
            let j = choose|j: int|
                0 <= j < dv.len() && (#[trigger] dv[j]).name == v && dv[j].blocks.contains(d);
            assert(defs.names@[j]@ == v && set_items(defs.sets@[j]).contains(d));
        }
    }
    defs
}

impl PhiNodes {
    /// The merge readers of each block, as lists of entries.
    pub open spec fn view(&self) -> Seq<Seq<(Seq<char>, Type)>> {
        readers(self.nodes@)
    }

    /// Places the merge readers of one variable, starting from the blocks
    /// that write it.
    fn place(
        tree: &DominatorTree,
        nodes: &mut Vec<LinkedHashMap<String, Type>>,
        dest: &String,
        ty: &Type,
        work: LinkedHashSet<usize>,
    )
        requires
            tree.wf(),
            old(nodes).len() == tree.cfg.size(),
            set_items(work).finite(),
            forall|d: usize| set_items(work).contains(d) ==> d < tree.cfg.size(),
            forall|d: usize| set_items(work).contains(d) ==> #[trigger] sourced(tree, dest@, d),
            single(readers(old(nodes)@)),
        ensures
            final(nodes).len() == old(nodes).len(),
            single(readers(final(nodes)@)),
            forall|f: int|
                0 <= f < old(nodes).len() && #[trigger] has_key(readers(final(nodes)@)[f], dest@)
                    && !has_key(readers(old(nodes)@)[f], dest@) ==> merges(tree, dest@, f as usize),
            forall|f: int, x: Seq<char>|
                0 <= f < old(nodes).len() ==> (#[trigger] has_key(readers(final(nodes)@)[f], x) <==> (
                has_key(readers(old(nodes)@)[f], x) || (x == dest@ && has_key(
                    readers(final(nodes)@)[f],
                    dest@,
                )))),
            forall|d: usize| #[trigger]
                set_items(work).contains(d) ==> served(readers(final(nodes)@), tree, d as int, dest@),
            forall|d: int|
                0 <= d < old(nodes).len() && #[trigger] has_key(readers(final(nodes)@)[d], dest@)
                    && !has_key(readers(old(nodes)@)[d], dest@) ==> served(
                    readers(final(nodes)@),
                    tree,
                    d,
                    dest@,
                ),
            readers(final(nodes)@) == phase(
                tree,
                readers(old(nodes)@),
                dest@,
                *ty,
                set_items(work),
            ),
    {
        let ghost start = readers(nodes@);
        let ghost first = set_items(work);
        let ghost mut done: Set<usize> = Set::empty();
        let n = nodes.len();
        let mut work = work;
        loop
            invariant
                forall|x: usize|
                    set_items(work).contains(x) ==> #[trigger] spreads(start, dest@, first, done, x),
                forall|f: int|
                    0 <= f < n ==> #[trigger] readers(nodes@)[f] == entries_at(
                        start,
                        dest@,
                        *ty,
                        done,
                        f,
                    ),
                forall|x: usize| #[trigger]
                    done.contains(x) ==> x < n && touched(tree, start, dest@, first, x),
                forall|x: usize|
                    x < n && #[trigger] spreads(start, dest@, first, done, x) && !set_items(
                        work,
                    ).contains(x) ==> covered(tree, done, x),
                tree.wf(),
                n == tree.cfg.size(),
                nodes.len() == n,
                start.len() == n,
                set_items(work).finite(),
                forall|d: usize| set_items(work).contains(d) ==> d < n,
                forall|d: usize| set_items(work).contains(d) ==> #[trigger] sourced(tree, dest@, d),
                single(readers(nodes@)),
                forall|f: int|
                    0 <= f < n && #[trigger] has_key(readers(nodes@)[f], dest@) && !has_key(
                        start[f],
                        dest@,
                    ) ==> merges(tree, dest@, f as usize),
                forall|d: usize| first.contains(d) ==> d < n,
                forall|f: int, x: Seq<char>|
                    0 <= f < n ==> (#[trigger] has_key(readers(nodes@)[f], x) <==> (has_key(
                        start[f],
                        x,
                    ) || (x == dest@ && has_key(readers(nodes@)[f], dest@)))),
                forall|d: usize|
                    d < n && (first.contains(d) || (has_key(readers(nodes@)[d as int], dest@)
                        && !has_key(start[d as int], dest@))) && !set_items(work).contains(d)
                        ==> #[trigger] served(readers(nodes@), tree, d as int, dest@),
            ensures
                set_items(work) == Set::<usize>::empty(),
            decreases missing(readers(nodes@), dest@), set_items(work).len(),
        {
            let ghost work_before = set_items(work);
            let d = match set_pop(&mut work) {
                Some(d) => d,
                None => {
                    break;
                },
            };
            proof {
                lemma_frontier_in_range(tree, d as int);
                vstd::set::axiom_set_remove_len(work_before, d);
                assert(spreads(start, dest@, first, done, d));
                assert forall|x: usize|
                    x < n && x != d && #[trigger] spreads(start, dest@, first, done, x)
                        && !set_items(work).contains(x) implies covered(tree, done, x) by {
                    assert(!work_before.contains(x));
                }
            }
            let front = set_to_vec(tree.dominance_frontier(d));
            let ghost df = set_items(tree.dominance_frontiers@[d as int]);
            let ghost phi0 = readers(nodes@);
            let mut k: usize = 0;
            while k < front.len()
                invariant
                    forall|x: usize|
                        set_items(work).contains(x) ==> #[trigger] spreads(
                            start,
                            dest@,
                            first,
                            done,
                            x,
                        ),
                    spreads(start, dest@, first, done, d),
                    forall|f: int|
                        0 <= f < n ==> #[trigger] readers(nodes@)[f] == entries_at(
                            start,
                            dest@,
                            *ty,
                            done,
                            f,
                        ),
                    forall|x: usize| #[trigger]
                        done.contains(x) ==> x < n && touched(tree, start, dest@, first, x),
                    forall|x: usize|
                        x < n && x != d && #[trigger] spreads(start, dest@, first, done, x)
                            && !set_items(work).contains(x) ==> covered(tree, done, x),
                    forall|j: int| 0 <= j < k ==> done.contains(#[trigger] front[j]),
                    k <= front.len(),
                    tree.wf(),
                    n == tree.cfg.size(),
                    nodes.len() == n,
                    start.len() == n,
                    d < n,
                    phi0.len() == n,
                    front@.to_set() == df,
                    df == set_items(tree.dominance_frontiers@[d as int]),
                    forall|s: usize| df.contains(s) ==> s < n,
                    set_items(work).finite(),
                    work_before.finite(),
                    work_before.contains(d),
                    forall|x: usize| set_items(work).contains(x) ==> x < n,
                    single(readers(nodes@)),
                    sourced(tree, dest@, d),
                    forall|x: usize|
                        set_items(work).contains(x) ==> #[trigger] sourced(tree, dest@, x),
                    forall|g: int|
                        0 <= g < n && #[trigger] has_key(readers(nodes@)[g], dest@) && !has_key(
                            phi0[g],
                            dest@,
                        ) ==> merges(tree, dest@, g as usize),
                    forall|x: usize| work_before.contains(x) && x != d ==> set_items(work).contains(x),
                    forall|j: int| 0 <= j < k ==> has_key(readers(nodes@)[(#[trigger] front[j]) as int], dest@),
                    forall|f: int, x: Seq<char>|
                        0 <= f < n ==> (#[trigger] has_key(readers(nodes@)[f], x) <==> (has_key(
                            phi0[f],
                            x,
                        ) || (x == dest@ && has_key(readers(nodes@)[f], dest@)))),
                    forall|f: int|
                        0 <= f < n && has_key(readers(nodes@)[f], dest@) && !has_key(phi0[f], dest@)
                            ==> set_items(work).contains(f as usize),
                    missing(readers(nodes@), dest@) <= missing(phi0, dest@),
                    missing(readers(nodes@), dest@) == missing(phi0, dest@) ==> set_items(work)
                        == work_before.remove(d),
                decreases front.len() - k,
            {
                let f = front[k];
                proof {
                    assert(front@.contains(f));
                    assert(df.contains(f));
                }
                let ghost before = readers(nodes@);
                let ghost e0 = map_entries(nodes@[f as int]);
                let ghost done0 = done;
                let ghost work0 = set_items(work);
                let old_value = map_insert(&mut nodes[f], dest.clone(), ty.clone());
                proof {
                    done = done0.insert(f);
                    assert(before[f as int] == e0);
                    assert(e0 == entries_at(start, dest@, *ty, done0, f as int));
                    lemma_insert_twice(start[f as int], dest@, *ty);
                    lemma_spread_push(tree, start, dest@, first, d, f);
                    assert(readers(nodes@)[f as int] == entries_at(start, dest@, *ty, done, f as int));
                    assert forall|g: int| 0 <= g < n implies #[trigger] readers(nodes@)[g]
                        == entries_at(start, dest@, *ty, done, g) by {
                        if g != f {
                            assert(readers(nodes@)[g] == before[g]);
                            assert(before[g] == entries_at(start, dest@, *ty, done0, g));
                        }
                    }
                    if old_value.is_none() {
                        assert(!has_key(e0, dest@));
                        if done0.contains(f) {
                            assert(e0[e0.len() - 1].0 == dest@);
                        }
                        assert(!has_key(start[f as int], dest@));
                    } else {
                        assert(has_key(e0, dest@));
                        if !done0.contains(f) {
                            assert(has_key(start[f as int], dest@));
                        }
                    }
                }
                proof {
                    let c = choose|c: Seq<usize>| #[trigger] chain_ok(tree, dest@, c) && c.last() == d;
                    lemma_chain_push(tree, dest@, c, f);
                    lemma_insert_keys(e0, dest@, *ty);
                    assert(distinct_keys(before[f as int]));
                    lemma_insert_distinct(e0, dest@, *ty);
                    assert forall|g: int| 0 <= g < readers(nodes@).len() implies distinct_keys(
                        #[trigger] readers(nodes@)[g],
                    ) by {
                        if g != f {
                            assert(readers(nodes@)[g] == before[g]);
                        }
                    }
                    let after = readers(nodes@);
                    assert(after =~= before.update(f as int, map_entries(nodes@[f as int])));
                    lemma_missing_update(before, f as int, map_entries(nodes@[f as int]), dest@);
                    assert(has_key(map_entries(nodes@[f as int]), dest@));
                }
                if old_value.is_none() {
                    set_insert(&mut work, f);
                }
                proof {
                    assert forall|x: usize| set_items(work).contains(x) implies #[trigger] spreads(
                        start,
                        dest@,
                        first,
                        done,
                        x,
                    ) by {
                        if work0.contains(x) {
                            assert(spreads(start, dest@, first, done0, x));
                        }
                    }
                    assert(spreads(start, dest@, first, done0, d));
                    assert forall|x: usize|
                        x < n && x != d && #[trigger] spreads(start, dest@, first, done, x)
                            && !set_items(work).contains(x) implies covered(tree, done, x) by {
                        assert(!work0.contains(x));
                        if !spreads(start, dest@, first, done0, x) {
                            assert(x == f && !done0.contains(f));
                        }
                        assert(covered(tree, done0, x));
                    }
                    assert forall|j: int| 0 <= j < k + 1 implies done.contains(#[trigger] front[j]) by {
                        if j < k {
                            assert(done0.contains(front[j]));
                        }
                    }
                    let after = readers(nodes@);
                    assert forall|j: int| 0 <= j < k + 1 implies has_key(
                        after[(#[trigger] front[j]) as int],
                        dest@,
                    ) by {
                        if j < k {
                            assert(has_key(before[front[j] as int], dest@));
                            assert(front@.contains(front[j]));
                            assert(df.contains(front[j]));
                            if front[j] != f {
                                assert(after[front[j] as int] == before[front[j] as int]);
                            }
                        }
                    }
                    assert forall|g: int, x: Seq<char>| 0 <= g < n implies (#[trigger] has_key(
                        after[g],
                        x,
                    ) <==> (has_key(phi0[g], x) || (x == dest@ && has_key(after[g], dest@)))) by {
                        if g != f {
                            assert(after[g] == before[g]);
                        }
                        assert(has_key(before[g], x) <==> (has_key(phi0[g], x) || (x == dest@
                            && has_key(before[g], dest@))));
                    }
                    assert forall|g: int|
                        0 <= g < n && has_key(after[g], dest@) && !has_key(
                            phi0[g],
                            dest@,
                        ) implies set_items(work).contains(g as usize) by {
                        if g != f {
                            assert(after[g] == before[g]);
                        }
                    }
                    assert forall|g: int|
                        0 <= g < n && #[trigger] has_key(after[g], dest@) && !has_key(
                            phi0[g],
                            dest@,
                        ) implies merges(tree, dest@, g as usize) by {
                        if g != f {
                            assert(after[g] == before[g]);
                        }
                    }
                }
                k += 1;
            }
            proof {
                assert(covered(tree, done, d)) by {
                    assert forall|f: usize| #[trigger] df.contains(f) implies done.contains(f) by {
                        assert(front@.contains(f));
                        let j = choose|j: int| 0 <= j < front@.len() && front@[j] == f;
                        assert(done.contains(front[j]));
                    }
                }
                let after = readers(nodes@);
                // The popped block is served now.
                assert forall|f: usize| #[trigger] df.contains(f) implies has_key(
                    after[f as int],
                    dest@,
                ) by {
                    assert(front@.contains(f));
                    let j = choose|j: int| 0 <= j < front@.len() && front@[j] == f;
                    assert(has_key(after[front[j] as int], dest@));
                }
                assert(served(after, tree, d as int, dest@));
                // What was served stays served, as readers only come.
                assert forall|x: usize|
                    x < n && (first.contains(x) || (has_key(after[x as int], dest@) && !has_key(
                        start[x as int],
                        dest@,
                    ))) && !set_items(work).contains(x) implies #[trigger] served(
                    after,
                    tree,
                    x as int,
                    dest@,
                ) by {
                    if x != d {
                        if !work_before.contains(x) {
                            if has_key(after[x as int], dest@) && !has_key(phi0[x as int], dest@) {
                                assert(set_items(work).contains(x));
                            }
                            assert(served(phi0, tree, x as int, dest@));
                            lemma_frontier_in_range(tree, x as int);
                            assert forall|f: usize| #[trigger]
                                set_items(tree.dominance_frontiers@[x as int]).contains(
                                    f,
                                ) implies has_key(after[f as int], dest@) by {
                                assert(has_key(phi0[f as int], dest@));
                            }
                        }
                    }
                }
                assert forall|f: int, x: Seq<char>| 0 <= f < n implies (#[trigger] has_key(
                    after[f],
                    x,
                ) <==> (has_key(start[f], x) || (x == dest@ && has_key(after[f], dest@)))) by {
                    assert(has_key(phi0[f], x) <==> (has_key(start[f], x) || (x == dest@
                        && has_key(phi0[f], dest@))));
                }
                assert forall|f: int|
                    0 <= f < n && #[trigger] has_key(after[f], dest@) && !has_key(
                        start[f],
                        dest@,
                    ) implies merges(tree, dest@, f as usize) by {
                    if has_key(phi0[f], dest@) {
                    }
                }
            }
        }
        proof {
            let after = readers(nodes@);
            assert forall|d: usize| #[trigger] first.contains(d) implies served(
                after,
                tree,
                d as int,
                dest@,
            ) by {}
            let goal = phase(tree, start, dest@, *ty, first);
            assert forall|f: int| 0 <= f < n implies after[f] == goal[f] by {
                if touched(tree, start, dest@, first, f as usize) {
                    let c = choose|c: Seq<usize>| #[trigger]
                        spread(tree, start, dest@, first, c) && c.last() == f as usize;
                    lemma_spread_done(tree, start, dest@, first, done, c);
                }
                assert(after[f] == entries_at(start, dest@, *ty, done, f));
            }
            assert(after =~= goal);
        }
    }

    /// The merge readers of the function of a dominator tree.
    pub fn new(doms: &DominatorTree) -> (r: Self)
        requires
            doms.wf(),
        ensures
            r@ == merge_readers(doms),
            closed(r@, doms),
            exact(r@, doms),
            single(r@),
    {
        let blocks = doms.cfg.iter();
        let n = blocks.len();
        let ghost bv = doms.cfg.func@.blocks;
        let defs = collect_defs(blocks);
        proof {
            lemma_deep_index(*blocks);
        }
        let mut nodes: Vec<LinkedHashMap<String, Type>> = Vec::new();
        let mut i: usize = 0;
        while i < n
            invariant
                i <= n,
                nodes.len() == i,
                single(readers(nodes@)),
                forall|f: int, x: Seq<char>| 0 <= f < i ==> !#[trigger] has_key(readers(nodes@)[f], x),
                forall|f: int|
                    0 <= f < i ==> #[trigger] readers(nodes@)[f] == Seq::<
                        (Seq<char>, Type),
                    >::empty(),
            decreases n - i,
        {
            let m = map_new();
            let ghost before = readers(nodes@);
            nodes.push(m);
            proof {
                assert forall|f: int| 0 <= f < i + 1 implies #[trigger] readers(nodes@)[f] == Seq::<
                    (Seq<char>, Type),
                >::empty() by {
                    if f < i {
                        assert(readers(nodes@)[f] == before[f]);
                    }
                }
                assert forall|f: int| 0 <= f < readers(nodes@).len() implies distinct_keys(
                    #[trigger] readers(nodes@)[f],
                ) by {
                    if f < i {
                        assert(readers(nodes@)[f] == before[f]);
                    }
                }
                assert forall|f: int, x: Seq<char>| 0 <= f < i + 1 implies !#[trigger] has_key(
                    readers(nodes@)[f],
                    x,
                ) by {
                    if f < i {
                        assert(readers(nodes@)[f] == before[f]);
                    }
                }
            }
            i += 1;
        }
        assert(readers(nodes@) =~= placed(doms, defs@, 0));
        let mut k: usize = 0;
        while k < defs.names.len()
            invariant
                readers(nodes@) == placed(doms, defs@, k as int),
                k <= defs.names.len(),
                doms.wf(),
                n == doms.cfg.size(),
                nodes.len() == n,
                defs.wf(n as nat),
                defs.true_to(doms.cfg.func@.blocks),
                sound(readers(nodes@), doms),
                single(readers(nodes@)),
                forall|d: int, v: Seq<char>|
                    0 <= d < n && #[trigger] has_key(readers(nodes@)[d], v) ==> served(
                        readers(nodes@),
                        doms,
                        d,
                        v,
                    ),
                forall|j: int, d: usize|
                    0 <= j < k && #[trigger] set_items(defs.sets@[j]).contains(d) ==> served(
                        readers(nodes@),
                        doms,
                        d as int,
                        defs.names@[j]@,
                    ),
            decreases defs.names.len() - k,
        {
            let ghost before = readers(nodes@);
            let work = set_clone(&defs.sets[k]);
            proof {
                assert forall|d: usize| set_items(work).contains(d) implies #[trigger] sourced(
                    doms,
                    defs.names@[k as int]@,
                    d,
                ) by {
                    assert(set_items(defs.sets@[k as int]).contains(d));
                    let c = seq![d];
                    assert(chain_ok(doms, defs.names@[k as int]@, c));
                    assert(c.last() == d);
                }
            }
            Self::place(doms, &mut nodes, &defs.names[k], &defs.types[k], work);
            proof {
                assert(defs@[k as int].name == defs.names@[k as int]@);
                assert(defs@[k as int].ty == defs.types@[k as int]);
                assert(defs@[k as int].blocks == set_items(defs.sets@[k as int]));
                assert(readers(nodes@) == placed(doms, defs@, k + 1));
                let after = readers(nodes@);
                let dest = defs.names@[k as int]@;
                assert forall|d: int, v: Seq<char>| 0 <= d < n && served(
                    before,
                    doms,
                    d,
                    v,
                ) implies served(after, doms, d, v) by {
                    lemma_frontier_in_range(doms, d);
                    assert forall|f: usize| #[trigger]
                        set_items(doms.dominance_frontiers@[d]).contains(f) implies has_key(
                        after[f as int],
                        v,
                    ) by {
                        assert(has_key(before[f as int], v));
                        assert(has_key(after[f as int], v) <==> (has_key(before[f as int], v) || (v
                            == dest && has_key(after[f as int], dest))));
                    }
                }
                assert forall|d: int, v: Seq<char>| 0 <= d < n && #[trigger] has_key(
                    after[d],
                    v,
                ) implies served(after, doms, d, v) by {
                    assert(has_key(after[d], v) <==> (has_key(before[d], v) || (v == dest
                        && has_key(after[d], dest))));
                    if has_key(before[d], v) {
                        assert(served(before, doms, d, v));
                    }
                }
                assert forall|j: int, d: usize|
                    0 <= j < k + 1 && #[trigger] set_items(defs.sets@[j]).contains(
                        d,
                    ) implies served(after, doms, d as int, defs.names@[j]@) by {
                    if j < k {
                        assert(served(before, doms, d as int, defs.names@[j]@));
                    }
                }
                assert forall|f: int, v: Seq<char>|
                    0 <= f < after.len() && #[trigger] has_key(after[f], v) implies merges(
                    doms,
                    v,
                    f as usize,
                ) by {
                    assert(has_key(after[f], v) <==> (has_key(before[f], v) || (v == dest
                        && has_key(after[f], dest))));
                    if has_key(before[f], v) {
                        assert(merges(doms, v, f as usize));
                    }
                }
            }
            k += 1;
        }
        let r = PhiNodes { nodes };
        proof {
            assert(defs@.len() == defs.names@.len());
            assert(blocks.deep_view() == doms.cfg.func@.blocks);
            assert(r@ == merge_readers(doms));
            assert forall|d: int, v: Seq<char>|
                0 <= d < r@.len() && (writes(doms.cfg.func@.blocks[d], v) || has_key(
                    r@[d],
                    v,
                )) implies served(r@, doms, d, v) by {
                if writes(doms.cfg.func@.blocks[d], v) {
                    assert(blocks[d]@ == doms.cfg.func@.blocks[d]);
                    assert(defs.lists(d as usize, v));
                    let j = choose|j: int|
                        0 <= j < defs.names@.len() && (#[trigger] defs.names@[j])@ == v
                            && set_items(defs.sets@[j]).contains(d as usize);
                    assert(served(r@, doms, d, defs.names@[j]@));
                }
            }
            assert(closed(r@, doms));
            assert forall|f: int, v: Seq<char>| 0 <= f < r@.len() implies (#[trigger] has_key(
                r@[f],
                v,
            ) <==> merges(doms, v, f as usize)) by {
                if merges(doms, v, f as usize) {
                    let c = choose|c: Seq<usize>|
                        #[trigger] chain_ok(doms, v, c) && c.len() >= 2 && c.last() == f as usize;
                    lemma_closed_holds_all(r@, doms, v, c);
                }
            }
        }
        r
    }

    /// The merge readers of a block, in order.
    pub fn get(&self, block: usize) -> (r: Vec<(String, Type)>)
        requires
            block < self.nodes@.len(),
        ensures
            pairs_view(r@) == self@[block as int],
    {
        map_pairs(&self.nodes[block])
    }
}

} // verus!
