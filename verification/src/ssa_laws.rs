//! What holds of SSA construction: the names it makes up tell their blocks
//! apart, the walk leaves out no block that hangs below the first block in
//! the dominator tree, and the result writes no name twice where the names
//! keep clear of one another: no undefined variable has the shape of a
//! made-up name, and the blocks outside the walk write names of their own.
use crate::basic_block::BlockView;
use crate::bb_function::{bare, block_form, flatten_blocks, lemma_scan, BBFunctionView};
use crate::cfg::{lemma_neighbours_in_range, CFG};
use crate::dominator_tree::DominatorTree;
use crate::ir::{arg_names, CodeView, FunctionView, InstrView, Type};
use crate::ssa_defined::{lemma_start_settled, lemma_walk_settled};
use crate::lvn::rebuild;
use crate::name_stack::{
    initial, lemma_shadow_injective, lemma_shadow_not_unique, lemma_unique_injective,
    shadow_spec, top, unique_spec,
};
use crate::passes::PassError;
use crate::phi::{chain_ok, closed, exact, merge_readers, merges, single, writes};
use crate::ssa::{
    all_sets, children, ctx_of, enter, get_instr, outcome, prepared, record, reindexed,
    rename_all, rename_args, rename_instr, seeds, sets_for, ssa_form, to_ssa_rel, types_of,
    undef_instr, visit, walk, walked, Renaming, SsaCtx, SsaState,
};
use crate::ssa_lower::{dests, is_ssa};
use crate::tree_laws::{
    connected, hangs, lemma_seen_bound, lemma_seen_grows, lemma_seen_insert,
    lemma_unlabelled_entry, lemma_whole_rooted, rooted, seen, tree_rooted, under,
};
use crate::type_map::{
    distinct_keys, has_key, lemma_insert_distinct, lemma_without_key, without_key,
};
use vstd::prelude::*;

verus! {

/// The names that a run of instructions writes, in order.
pub open spec fn instr_dests(s: Seq<InstrView>) -> Seq<Seq<char>>
    decreases s.len(),
{
    if s.len() == 0 {
        seq![]
    } else {
        match s.last().dest() {
            Some(d) => instr_dests(s.drop_last()).push(d),
            None => instr_dests(s.drop_last()),
        }
    }
}

/// The names written by two runs, one after the other, are those of the
/// first and then those of the second.
pub proof fn lemma_dests_concat(x: Seq<InstrView>, y: Seq<InstrView>)
    ensures
        instr_dests(x + y) == instr_dests(x) + instr_dests(y),
    decreases y.len(),
{
    if y.len() == 0 {
        assert(x + y =~= x);
        assert(instr_dests(x) + instr_dests(y) =~= instr_dests(x));
    } else {
        lemma_dests_concat(x, y.drop_last());
        assert((x + y).drop_last() =~= x + y.drop_last());
        assert((x + y).last() == y.last());
        match y.last().dest() {
            Some(d) => {
                assert((instr_dests(x) + instr_dests(y.drop_last())).push(d) =~= instr_dests(x)
                    + instr_dests(y.drop_last()).push(d));
            },
            None => {},
        }
    }
}

/// A single instruction writes its name, if it has one.
pub proof fn lemma_dests_one(i: InstrView)
    ensures
        instr_dests(seq![i]) == match i.dest() {
            Some(d) => seq![d],
            None => Seq::<Seq<char>>::empty(),
        },
{
    let one = seq![i];
    assert(one.drop_last() =~= Seq::<InstrView>::empty());
    assert(instr_dests(one.drop_last()) =~= Seq::<Seq<char>>::empty());
    assert(one.last() == i);
    match i.dest() {
        Some(d) => {
            assert(instr_dests(one) =~= seq![d]);
        },
        None => {},
    }
}

/// A name written by a run is written by one of its instructions.
pub proof fn lemma_dests_member(s: Seq<InstrView>, nm: Seq<char>)
    requires
        instr_dests(s).contains(nm),
    ensures
        exists|k: int| 0 <= k < s.len() && (#[trigger] s[k]).dest() == Some(nm),
    decreases s.len(),
{
    if s.len() > 0 {
        let d = instr_dests(s);
        let j = choose|j: int| 0 <= j < d.len() && d[j] == nm;
        let head = instr_dests(s.drop_last());
        if j < head.len() {
            assert(head[j] == nm);
            lemma_dests_member(s.drop_last(), nm);
            let k = choose|k: int|
                0 <= k < s.drop_last().len() && (#[trigger] s.drop_last()[k]).dest() == Some(nm);
            assert(s[k].dest() == Some(nm));
        } else {
            assert(s[s.len() - 1].dest() == Some(nm));
        }
    }
}

/// Two runs of names without repetition that share no name give, one after
/// the other, a run without repetition.
pub proof fn lemma_concat_no_dup(x: Seq<Seq<char>>, y: Seq<Seq<char>>)
    requires
        x.no_duplicates(),
        y.no_duplicates(),
        forall|i: int, j: int| 0 <= i < x.len() && 0 <= j < y.len() ==> x[i] != y[j],
    ensures
        (x + y).no_duplicates(),
{
    let z = x + y;
    assert forall|i: int, j: int| 0 <= i < z.len() && 0 <= j < z.len() && i != j implies z[i]
        != z[j] by {
        if i < x.len() && j < x.len() {
            assert(x[i] != x[j]);
        } else if i >= x.len() && j >= x.len() {
            assert(y[i - x.len()] != y[j - x.len()]);
        } else if i < x.len() {
            assert(x[i] != y[j - x.len()]);
        } else {
            assert(x[j] != y[i - x.len()]);
        }
    }
}

/// Whether a name holds no dot.
pub open spec fn dotless(nm: Seq<char>) -> bool {
    !nm.contains('.')
}

/// Whether a name is one that the construction makes up at block `b`: the
/// name of a merge reader, or the name of what an instruction writes.
pub open spec fn name_at(b: nat, nm: Seq<char>) -> bool {
    (exists|v: Seq<char>| nm == #[trigger] shadow_spec(v, b)) || (exists|d: Seq<char>, i: nat|
        nm == #[trigger] unique_spec(d, b, i))
}

/// A name made up at a block holds a dot.
pub proof fn lemma_name_at_dotted(b: nat, nm: Seq<char>)
    requires
        name_at(b, nm),
    ensures
        !dotless(nm),
{
    reveal_strlit(".");
    if exists|v: Seq<char>| nm == #[trigger] shadow_spec(v, b) {
        let v = choose|v: Seq<char>| nm == #[trigger] shadow_spec(v, b);
        assert(nm[v.len() as int] == '.');
    } else {
        let (d, i) = choose|d: Seq<char>, i: nat| nm == #[trigger] unique_spec(d, b, i);
        assert(nm[d.len() as int] == '.');
    }
}

/// A name made up at a block is made up at no other block.
pub proof fn lemma_name_at_one_block(b1: nat, b2: nat, nm: Seq<char>)
    requires
        name_at(b1, nm),
        name_at(b2, nm),
    ensures
        b1 == b2,
{
    if exists|v: Seq<char>| nm == #[trigger] shadow_spec(v, b1) {
        let v = choose|v: Seq<char>| nm == #[trigger] shadow_spec(v, b1);
        if exists|w: Seq<char>| nm == #[trigger] shadow_spec(w, b2) {
            let w = choose|w: Seq<char>| nm == #[trigger] shadow_spec(w, b2);
            lemma_shadow_injective(v, b1, w, b2);
        } else {
            let (d, i) = choose|d: Seq<char>, i: nat| nm == #[trigger] unique_spec(d, b2, i);
            lemma_shadow_not_unique(v, b1, d, b2, i);
        }
    } else {
        let (d, i) = choose|d: Seq<char>, i: nat| nm == #[trigger] unique_spec(d, b1, i);
        if exists|w: Seq<char>| nm == #[trigger] shadow_spec(w, b2) {
            let w = choose|w: Seq<char>| nm == #[trigger] shadow_spec(w, b2);
            lemma_shadow_not_unique(w, b2, d, b1, i);
        } else {
            let (e, j) = choose|e: Seq<char>, j: nat| nm == #[trigger] unique_spec(e, b2, j);
            lemma_unique_injective(d, b1, i, e, b2, j);
        }
    }
}

/// Whether a name is that of the merge reader of one of the variables
/// `phis` at block `b`.
pub open spec fn reader_name(nm: Seq<char>, phis: Seq<(Seq<char>, Type)>, b: nat) -> bool {
    exists|v: Seq<char>| has_key(phis, v) && nm == #[trigger] shadow_spec(v, b)
}

/// Whether a name is made up for one of the first `n` positions of block
/// `b`.
pub open spec fn written_name(nm: Seq<char>, b: nat, n: nat) -> bool {
    exists|d: Seq<char>, i: nat| i < n && nm == #[trigger] unique_spec(d, b, i)
}

/// Whether the names that a run writes are made up at block `b`, and none
/// is written twice.
pub open spec fn renamed_ok(s: Seq<InstrView>, b: nat) -> bool {
    &&& instr_dests(s).no_duplicates()
    &&& forall|k: int| 0 <= k < instr_dests(s).len() ==> name_at(b, #[trigger] instr_dests(s)[k])
}

/// The merge readers at the top of a block write the names of the merge
/// readers of its variables, each once.
pub proof fn lemma_enter_dests(
    stack: Map<Seq<char>, Seq<Seq<char>>>,
    phis: Seq<(Seq<char>, Type)>,
    b: nat,
)
    requires
        distinct_keys(phis),
    ensures
        instr_dests(enter(stack, phis, b).1).no_duplicates(),
        forall|k: int|
            0 <= k < instr_dests(enter(stack, phis, b).1).len() ==> reader_name(
                #[trigger] instr_dests(enter(stack, phis, b).1)[k],
                phis,
                b,
            ),
    decreases phis.len(),
{
    if phis.len() > 0 {
        let head = phis.drop_last();
        assert(distinct_keys(head)) by {
            assert forall|i: int, j: int| 0 <= i < j < head.len() implies (#[trigger] head[i]).0
                != (#[trigger] head[j]).0 by {
                assert(phis[i].0 != phis[j].0);
            }
        }
        lemma_enter_dests(stack, head, b);
        let (s, g) = enter(stack, head, b);
        let (dst, ty) = phis.last();
        let one = seq![get_instr(dst, ty, b)];
        let all = one + g;
        assert(enter(stack, phis, b).1 == all);
        lemma_dests_concat(one, g);
        lemma_dests_one(get_instr(dst, ty, b));
        let d1 = instr_dests(one);
        let d2 = instr_dests(g);
        assert forall|i: int, j: int| 0 <= i < d1.len() && 0 <= j < d2.len() implies d1[i]
            != d2[j] by {
            let v = choose|v: Seq<char>| has_key(head, v) && d2[j] == #[trigger] shadow_spec(v, b);
            if d1[i] == d2[j] {
                lemma_shadow_injective(dst, b, v, b);
                let t = choose|t: int| 0 <= t < head.len() && (#[trigger] head[t]).0 == v;
                assert(phis[t].0 != phis[phis.len() - 1].0);
            }
        }
        lemma_concat_no_dup(d1, d2);
        assert forall|k: int| 0 <= k < (d1 + d2).len() implies reader_name(#[trigger] (d1 + d2)[k], phis, b) by {
            if k == 0 {
                assert(phis[phis.len() - 1].0 == dst);
                assert(has_key(phis, dst));
            } else {
                let v = choose|v: Seq<char>| has_key(head, v) && d2[k - 1] == #[trigger] shadow_spec(v, b);
                let t = choose|t: int| 0 <= t < head.len() && (#[trigger] head[t]).0 == v;
                assert(phis[t].0 == v);
                assert(has_key(phis, v));
            }
        }
    }
}

/// Whether each instruction of a run that writes a name writes the name
/// made up for its position in block `b`.
pub open spec fn tagged(out: Seq<InstrView>, b: nat) -> bool {
    forall|k: int|
        0 <= k < out.len() && (#[trigger] out[k]).dest().is_some() ==> exists|d: Seq<char>|
            out[k].dest() == Some(#[trigger] unique_spec(d, b, k as nat))
}

/// Renamed instructions write the names made up for their positions.
pub proof fn lemma_rename_all_tagged(
    r: Renaming,
    types: Map<Seq<char>, Type>,
    all: Seq<InstrView>,
    b: nat,
    n: int,
)
    requires
        0 <= n <= all.len(),
        rename_all(r, types, all, b, n).is_ok(),
    ensures
        rename_all(r, types, all, b, n).unwrap().1.len() == n,
        tagged(rename_all(r, types, all, b, n).unwrap().1, b),
        forall|k: int|
            0 <= k < n ==> (#[trigger] rename_all(r, types, all, b, n).unwrap().1[k]).is_terminator()
                == all[k].is_terminator(),
    decreases n,
{
    if n > 0 {
        lemma_rename_all_tagged(r, types, all, b, n - 1);
        let (r1, done) = rename_all(r, types, all, b, n - 1).unwrap();
        let (r2, i) = rename_instr(r1, types, all[n - 1], b, (n - 1) as nat).unwrap();
        let out = done.push(i);
        assert forall|k: int|
            0 <= k < out.len() && (#[trigger] out[k]).dest().is_some() implies exists|d: Seq<char>|
            out[k].dest() == Some(#[trigger] unique_spec(d, b, k as nat)) by {
            if k < n - 1 {
                assert(done[k].dest().is_some());
            } else {
                let d = all[n - 1].dest().unwrap();
                assert(out[k].dest() == Some(unique_spec(d, b, k as nat)));
            }
        }
        assert forall|k: int| 0 <= k < n implies (#[trigger] out[k]).is_terminator()
            == all[k].is_terminator() by {
            if k < n - 1 {
                assert(done[k].is_terminator() == all[k].is_terminator());
            }
        }
    }
}

/// A run whose instructions write the names of their positions writes
/// names made up at its block, each once.
pub proof fn lemma_tagged_dests(out: Seq<InstrView>, b: nat)
    requires
        tagged(out, b),
    ensures
        instr_dests(out).no_duplicates(),
        forall|k: int|
            0 <= k < instr_dests(out).len() ==> written_name(
                #[trigger] instr_dests(out)[k],
                b,
                out.len(),
            ),
    decreases out.len(),
{
    if out.len() > 0 {
        let head = out.drop_last();
        assert(tagged(head, b)) by {
            assert forall|k: int|
                0 <= k < head.len() && (#[trigger] head[k]).dest().is_some() implies exists|
                d: Seq<char>,
            | head[k].dest() == Some(#[trigger] unique_spec(d, b, k as nat)) by {
                assert(out[k].dest().is_some());
            }
        }
        lemma_tagged_dests(head, b);
        let dh = instr_dests(head);
        match out.last().dest() {
            Some(nm) => {
                let last = out.len() - 1;
                assert(out[last].dest().is_some());
                let d = choose|d: Seq<char>|
                    out[last].dest() == Some(#[trigger] unique_spec(d, b, last as nat));
                let all = dh.push(nm);
                assert(instr_dests(out) == all);
                assert forall|i: int, j: int|
                    0 <= i < all.len() && 0 <= j < all.len() && i != j implies all[i]
                    != all[j] by {
                    if i < dh.len() && j < dh.len() {
                        assert(dh[i] != dh[j]);
                    } else {
                        let other = if i < dh.len() {
                            i
                        } else {
                            j
                        };
                        let (e, t) = choose|e: Seq<char>, t: nat|
                            t < head.len() && dh[other] == #[trigger] unique_spec(e, b, t);
                        if dh[other] == nm {
                            lemma_unique_injective(e, b, t, d, b, last as nat);
                        }
                    }
                }
                assert forall|k: int| 0 <= k < all.len() implies written_name(
                    #[trigger] all[k],
                    b,
                    out.len(),
                ) by {
                    if k < dh.len() {
                        let (e, t) = choose|e: Seq<char>, t: nat|
                            t < head.len() && dh[k] == #[trigger] unique_spec(e, b, t);
                        assert(t < out.len() && all[k] == unique_spec(e, b, t));
                    } else {
                        assert(all[k] == unique_spec(d, b, last as nat));
                    }
                }
            },
            None => {
                assert(instr_dests(out) == dh);
                assert forall|k: int| 0 <= k < dh.len() implies written_name(
                    #[trigger] dh[k],
                    b,
                    out.len(),
                ) by {
                    let (e, t) = choose|e: Seq<char>, t: nat|
                        t < head.len() && dh[k] == #[trigger] unique_spec(e, b, t);
                    assert(t < out.len() && dh[k] == unique_spec(e, b, t));
                }
            },
        }
    }
}

/// The writes to merge readers write no name.
pub proof fn lemma_sets_for_dests(r: Renaming, phis: Seq<(Seq<char>, Type)>, succ: nat)
    ensures
        instr_dests(sets_for(r, phis, succ).1) == Seq::<Seq<char>>::empty(),
    decreases phis.len(),
{
    if phis.len() > 0 {
        lemma_sets_for_dests(r, phis.drop_last(), succ);
        let (r1, done) = sets_for(r, phis.drop_last(), succ);
        let out = sets_for(r, phis, succ).1;
        assert(out.drop_last() =~= done);
        assert(out.last().dest().is_none());
    }
}

/// The writes to the merge readers of all successors write no name.
pub proof fn lemma_all_sets_dests(
    r: Renaming,
    phi: Seq<Seq<(Seq<char>, Type)>>,
    succs: Seq<usize>,
    k: int,
)
    ensures
        instr_dests(all_sets(r, phi, succs, k).1) == Seq::<Seq<char>>::empty(),
    decreases k,
{
    if k > 0 {
        lemma_all_sets_dests(r, phi, succs, k - 1);
        let (r1, done) = all_sets(r, phi, succs, k - 1);
        let (r2, more) = sets_for(r1, phi[succs[k - 1] as int], succs[k - 1] as nat);
        lemma_sets_for_dests(r1, phi[succs[k - 1] as int], succs[k - 1] as nat);
        lemma_dests_concat(done, more);
        assert(instr_dests(done) + instr_dests(more) =~= Seq::<Seq<char>>::empty());
    }
}

/// A block that the walk has renamed writes names made up at the block,
/// each once; the other blocks are as they were.
pub proof fn lemma_visit_block(ctx: SsaCtx, st: SsaState, b: int)
    requires
        0 <= b < st.blocks.len(),
        b < ctx.phi.len(),
        st.blocks[b].wf(),
        distinct_keys(ctx.phi[b]),
        visit(ctx, st, b).is_ok(),
    ensures
        visit(ctx, st, b).unwrap().blocks.len() == st.blocks.len(),
        visit(ctx, st, b).unwrap().visited == st.visited.insert(b as usize),
        forall|x: int|
            0 <= x < st.blocks.len() && x != b ==> #[trigger] visit(ctx, st, b).unwrap().blocks[x]
                == st.blocks[x],
        renamed_ok(visit(ctx, st, b).unwrap().blocks[b].all(), b as nat),
        visit(ctx, st, b).unwrap().blocks[b].wf(),
        visit(ctx, st, b).unwrap().blocks[b].label == st.blocks[b].label,
{
    let blk = st.blocks[b];
    let (s1, gets) = enter(st.r.stack, ctx.phi[b], b as nat);
    let start = Renaming { stack: s1, ..st.r };
    let n = blk.all().len() as int;
    let (r2, renamed) = rename_all(start, ctx.types, blk.all(), b as nat, n).unwrap();
    let (r3, sets) = all_sets(r2, ctx.phi, ctx.succs[b], ctx.succs[b].len() as int);
    let body = rebuild(blk, renamed);
    let nb = BlockView { instrs: gets + body.instrs + sets, ..body };
    assert(visit(ctx, st, b).unwrap().blocks[b] == nb);
    lemma_enter_dests(st.r.stack, ctx.phi[b], b as nat);
    lemma_rename_all_tagged(start, ctx.types, blk.all(), b as nat, n);
    lemma_tagged_dests(renamed, b as nat);
    lemma_all_sets_dests(r2, ctx.phi, ctx.succs[b], ctx.succs[b].len() as int);
    let dg = instr_dests(gets);
    let dr = instr_dests(renamed);
    // The names of the block are those of the readers and those of the
    // renamed instructions.
    assert(instr_dests(nb.all()) == dg + dr) by {
        lemma_dests_concat(gets, body.instrs);
        lemma_dests_concat(gets + body.instrs, sets);
        assert(instr_dests(gets + body.instrs + sets) =~= dg + instr_dests(body.instrs));
        if blk.control_flow.is_some() {
            let t = renamed.last();
            assert(renamed =~= body.instrs.push(t));
            assert(nb.all() =~= (gets + body.instrs + sets) + seq![t]);
            lemma_dests_concat(gets + body.instrs + sets, seq![t]);
            lemma_dests_concat(body.instrs, seq![t]);
            assert(body.instrs + seq![t] =~= renamed);
            assert(dg + instr_dests(body.instrs) + instr_dests(seq![t]) =~= dg + (instr_dests(
                body.instrs,
            ) + instr_dests(seq![t])));
        } else {
            assert(body.instrs == renamed);
            assert(nb.all() =~= gets + body.instrs + sets);
        }
    }
    assert forall|i: int, j: int| 0 <= i < dg.len() && 0 <= j < dr.len() implies dg[i]
        != dr[j] by {
        let v = choose|v: Seq<char>| has_key(ctx.phi[b], v) && dg[i] == #[trigger] shadow_spec(v, b as nat);
        let (d, t) = choose|d: Seq<char>, t: nat|
            t < renamed.len() && dr[j] == #[trigger] unique_spec(d, b as nat, t);
        lemma_shadow_not_unique(v, b as nat, d, b as nat, t);
    }
    lemma_concat_no_dup(dg, dr);
    assert forall|k: int| 0 <= k < (dg + dr).len() implies name_at(b as nat, #[trigger] (dg + dr)[k]) by {
        if k < dg.len() {
            let v = choose|v: Seq<char>| has_key(ctx.phi[b], v) && dg[k] == #[trigger] shadow_spec(v, b as nat);
            assert((dg + dr)[k] == shadow_spec(v, b as nat));
        } else {
            let (d, t) = choose|d: Seq<char>, t: nat|
                t < renamed.len() && dr[k - dg.len()] == #[trigger] unique_spec(d, b as nat, t);
            assert((dg + dr)[k] == unique_spec(d, b as nat, t));
        }
    }
    // The block stays in order: readers, renamed instructions and writes
    // to readers are no terminators.
    assert(nb.wf()) by {
        lemma_enter_plain(st.r.stack, ctx.phi[b], b as nat);
        lemma_all_sets_plain(r2, ctx.phi, ctx.succs[b], ctx.succs[b].len() as int);
        assert forall|i: int| 0 <= i < nb.instrs.len() implies !(#[trigger] nb.instrs[i]).is_terminator() by {
            if i < gets.len() {
            } else if i < gets.len() + body.instrs.len() {
                let k = i - gets.len();
                assert(nb.instrs[i] == body.instrs[k]);
                assert(body.instrs[k] == renamed[k]);
                assert(renamed[k].is_terminator() == blk.all()[k].is_terminator());
                assert(blk.all()[k] == blk.instrs[k]);
            } else {
                assert(nb.instrs[i] == sets[i - gets.len() - body.instrs.len()]);
            }
        }
        if blk.control_flow.is_some() {
            assert(renamed.last() == renamed[n - 1]);
            assert(blk.all()[n - 1] == blk.control_flow.unwrap());
        }
    }
}

/// The merge readers are no terminators.
pub proof fn lemma_enter_plain(
    stack: Map<Seq<char>, Seq<Seq<char>>>,
    phis: Seq<(Seq<char>, Type)>,
    b: nat,
)
    ensures
        forall|i: int|
            0 <= i < enter(stack, phis, b).1.len() ==> !(#[trigger] enter(
                stack,
                phis,
                b,
            ).1[i]).is_terminator(),
    decreases phis.len(),
{
    if phis.len() > 0 {
        lemma_enter_plain(stack, phis.drop_last(), b);
        let g = enter(stack, phis.drop_last(), b).1;
        let all = enter(stack, phis, b).1;
        assert forall|i: int| 0 <= i < all.len() implies !(#[trigger] all[i]).is_terminator() by {
            if i > 0 {
                assert(all[i] == g[i - 1]);
            }
        }
    }
}

/// The writes to the merge readers of one successor are no terminators.
pub proof fn lemma_sets_for_plain(r: Renaming, phis: Seq<(Seq<char>, Type)>, succ: nat)
    ensures
        forall|i: int|
            0 <= i < sets_for(r, phis, succ).1.len() ==> !(#[trigger] sets_for(
                r,
                phis,
                succ,
            ).1[i]).is_terminator(),
    decreases phis.len(),
{
    if phis.len() > 0 {
        lemma_sets_for_plain(r, phis.drop_last(), succ);
        let done = sets_for(r, phis.drop_last(), succ).1;
        let out = sets_for(r, phis, succ).1;
        assert forall|i: int| 0 <= i < out.len() implies !(#[trigger] out[i]).is_terminator() by {
            if i < done.len() {
                assert(out[i] == done[i]);
            }
        }
    }
}

/// The writes to the merge readers of all successors are no terminators.
pub proof fn lemma_all_sets_plain(
    r: Renaming,
    phi: Seq<Seq<(Seq<char>, Type)>>,
    succs: Seq<usize>,
    k: int,
)
    ensures
        forall|i: int|
            0 <= i < all_sets(r, phi, succs, k).1.len() ==> !(#[trigger] all_sets(
                r,
                phi,
                succs,
                k,
            ).1[i]).is_terminator(),
    decreases k,
{
    if k > 0 {
        lemma_all_sets_plain(r, phi, succs, k - 1);
        let (r1, done) = all_sets(r, phi, succs, k - 1);
        let (r2, more) = sets_for(r1, phi[succs[k - 1] as int], succs[k - 1] as nat);
        lemma_sets_for_plain(r1, phi[succs[k - 1] as int], succs[k - 1] as nat);
        let out = done + more;
        assert forall|i: int| 0 <= i < out.len() implies !(#[trigger] out[i]).is_terminator() by {
            if i < done.len() {
                assert(out[i] == done[i]);
            } else {
                assert(out[i] == more[i - done.len()]);
            }
        }
    }
}

/// Whether what the walk goes by is in order: every successor is a block,
/// no block has two merge readers for one variable, and every variable of
/// the function is one of the names `p`.
pub open spec fn plain(ctx: SsaCtx, p: spec_fn(Seq<char>) -> bool) -> bool {
    &&& ctx.phi.len() <= usize::MAX
    &&& ctx.succs.len() == ctx.phi.len()
    &&& forall|b: int, k: int|
        0 <= b < ctx.succs.len() && 0 <= k < ctx.succs[b].len() ==> (#[trigger] ctx.succs[b][k])
            < ctx.phi.len()
    &&& forall|b: int| 0 <= b < ctx.phi.len() ==> distinct_keys(#[trigger] ctx.phi[b])
    &&& forall|b: int| 0 <= b < ctx.phi.len() ==> keys_ok(#[trigger] ctx.phi[b], p)
    &&& forall|nm: Seq<char>| ctx.types.contains_key(nm) ==> p(nm)
}

/// Whether every key is one of the names `p`.
pub open spec fn keys_ok(s: Seq<(Seq<char>, Type)>, p: spec_fn(Seq<char>) -> bool) -> bool {
    forall|k: int| 0 <= k < s.len() ==> p((#[trigger] s[k]).0)
}

/// Every name.
pub open spec fn any_name() -> spec_fn(Seq<char>) -> bool {
    |nm: Seq<char>| true
}

/// The names that hold no dot.
pub open spec fn dotless_name() -> spec_fn(Seq<char>) -> bool {
    |nm: Seq<char>| dotless(nm)
}

/// Whether the variables recorded as undefined are in order: none is
/// recorded twice, and each is one of the names `p`.
pub open spec fn und_ok(und: Seq<(Seq<char>, Type)>, p: spec_fn(Seq<char>) -> bool) -> bool {
    distinct_keys(und) && keys_ok(und, p)
}

/// Recording one of the names `p` keeps the record in order.
pub proof fn lemma_record_ok(
    und: Seq<(Seq<char>, Type)>,
    name: Seq<char>,
    ty: Type,
    p: spec_fn(Seq<char>) -> bool,
)
    requires
        und_ok(und, p),
        p(name),
    ensures
        und_ok(record(und, name, ty), p),
{
    lemma_insert_distinct(und, name, ty);
    lemma_without_key(und, name);
    let w = without_key(und, name);
    let n = record(und, name, ty);
    assert forall|k: int| 0 <= k < n.len() implies p((#[trigger] n[k]).0) by {
        if k < w.len() {
            assert(has_key(w, w[k].0));
            assert(has_key(und, w[k].0));
            let t = choose|t: int| 0 <= t < und.len() && (#[trigger] und[t]).0 == w[k].0;
            assert(p(und[t].0));
        }
    }
}

/// Renaming arguments keeps the record of undefined variables in order.
pub proof fn lemma_rename_args_ok(
    r: Renaming,
    types: Map<Seq<char>, Type>,
    args: Seq<Seq<char>>,
    p: spec_fn(Seq<char>) -> bool,
)
    requires
        und_ok(r.undefined, p),
        forall|nm: Seq<char>| types.contains_key(nm) ==> p(nm),
        rename_args(r, types, args).is_ok(),
    ensures
        und_ok(rename_args(r, types, args).unwrap().0.undefined, p),
    decreases args.len(),
{
    if args.len() > 0 {
        lemma_rename_args_ok(r, types, args.drop_last(), p);
        let (r1, done) = rename_args(r, types, args.drop_last()).unwrap();
        if top(r1.stack, args.last()).is_none() {
            lemma_record_ok(r1.undefined, args.last(), types[args.last()], p);
        }
    }
}

/// Renaming instructions keeps the record of undefined variables in order.
pub proof fn lemma_rename_all_ok(
    r: Renaming,
    types: Map<Seq<char>, Type>,
    all: Seq<InstrView>,
    b: nat,
    n: int,
    p: spec_fn(Seq<char>) -> bool,
)
    requires
        und_ok(r.undefined, p),
        forall|nm: Seq<char>| types.contains_key(nm) ==> p(nm),
        rename_all(r, types, all, b, n).is_ok(),
    ensures
        und_ok(rename_all(r, types, all, b, n).unwrap().0.undefined, p),
    decreases n,
{
    if n > 0 {
        lemma_rename_all_ok(r, types, all, b, n - 1, p);
        let (r1, done) = rename_all(r, types, all, b, n - 1).unwrap();
        lemma_rename_args_ok(r1, types, all[n - 1].arg_list(), p);
    }
}

/// Writing to the merge readers of a successor keeps the record of
/// undefined variables in order.
pub proof fn lemma_sets_for_ok(
    r: Renaming,
    phis: Seq<(Seq<char>, Type)>,
    succ: nat,
    p: spec_fn(Seq<char>) -> bool,
)
    requires
        und_ok(r.undefined, p),
        keys_ok(phis, p),
    ensures
        und_ok(sets_for(r, phis, succ).0.undefined, p),
    decreases phis.len(),
{
    if phis.len() > 0 {
        let head = phis.drop_last();
        assert(keys_ok(head, p)) by {
            assert forall|k: int| 0 <= k < head.len() implies p((#[trigger] head[k]).0) by {
                assert(head[k] == phis[k]);
            }
        }
        lemma_sets_for_ok(r, head, succ, p);
        let (r1, done) = sets_for(r, head, succ);
        let (dst, ty) = phis.last();
        assert(phis[phis.len() - 1].0 == dst);
        if top(r1.stack, dst).is_none() {
            lemma_record_ok(r1.undefined, dst, ty, p);
        }
    }
}

/// Writing to the merge readers of all successors keeps the record of
/// undefined variables in order.
pub proof fn lemma_all_sets_ok(
    r: Renaming,
    phi: Seq<Seq<(Seq<char>, Type)>>,
    succs: Seq<usize>,
    k: int,
    p: spec_fn(Seq<char>) -> bool,
)
    requires
        und_ok(r.undefined, p),
        k <= succs.len(),
        forall|j: int| 0 <= j < succs.len() ==> (#[trigger] succs[j]) < phi.len(),
        forall|b: int| 0 <= b < phi.len() ==> keys_ok(#[trigger] phi[b], p),
    ensures
        und_ok(all_sets(r, phi, succs, k).0.undefined, p),
    decreases k,
{
    if k > 0 {
        lemma_all_sets_ok(r, phi, succs, k - 1, p);
        let (r1, done) = all_sets(r, phi, succs, k - 1);
        assert(succs[k - 1] < phi.len());
        lemma_sets_for_ok(r1, phi[succs[k - 1] as int], succs[k - 1] as nat, p);
    }
}

/// What holds of the walk at every step: each block is in order, each block
/// that the walk has been at writes names made up at it, each once, and the
/// record of undefined variables is in order.
pub open spec fn inv(ctx: SsaCtx, p: spec_fn(Seq<char>) -> bool, st: SsaState) -> bool {
    &&& st.blocks.len() == ctx.phi.len()
    &&& forall|b: int| 0 <= b < st.blocks.len() ==> (#[trigger] st.blocks[b]).wf()
    &&& forall|b: int|
        0 <= b < st.blocks.len() && st.visited.contains(b as usize) ==> renamed_ok(
            (#[trigger] st.blocks[b]).all(),
            b as nat,
        )
    &&& und_ok(st.r.undefined, p)
}

/// Renaming a block keeps what holds of the walk.
pub proof fn lemma_visit_inv(ctx: SsaCtx, p: spec_fn(Seq<char>) -> bool, st: SsaState, b: int)
    requires
        plain(ctx, p),
        inv(ctx, p, st),
        0 <= b < st.blocks.len(),
        visit(ctx, st, b).is_ok(),
    ensures
        inv(ctx, p, visit(ctx, st, b).unwrap()),
{
    lemma_visit_block(ctx, st, b);
    let st1 = visit(ctx, st, b).unwrap();
    let blk = st.blocks[b];
    let (s1, gets) = enter(st.r.stack, ctx.phi[b], b as nat);
    let start = Renaming { stack: s1, ..st.r };
    let n = blk.all().len() as int;
    lemma_rename_all_ok(start, ctx.types, blk.all(), b as nat, n, p);
    let (r2, renamed) = rename_all(start, ctx.types, blk.all(), b as nat, n).unwrap();
    lemma_all_sets_ok(r2, ctx.phi, ctx.succs[b], ctx.succs[b].len() as int, p);
    assert forall|x: int| 0 <= x < st1.blocks.len() implies (#[trigger] st1.blocks[x]).wf() by {
        if x != b {
            assert(st1.blocks[x] == st.blocks[x]);
        }
    }
    assert forall|x: int|
        0 <= x < st1.blocks.len() && st1.visited.contains(x as usize) implies renamed_ok(
        (#[trigger] st1.blocks[x]).all(),
        x as nat,
    ) by {
        if x != b {
            assert(st1.blocks[x] == st.blocks[x]);
            assert(st.visited.contains(x as usize));
        }
    }
}

/// The walk from a block keeps what holds of it.
pub proof fn lemma_walk_inv(
    ctx: SsaCtx,
    p: spec_fn(Seq<char>) -> bool,
    st: SsaState,
    b: int,
    fuel: nat,
)
    requires
        plain(ctx, p),
        inv(ctx, p, st),
        0 <= b < st.blocks.len(),
        walk(ctx, st, b, fuel).is_ok(),
    ensures
        inv(ctx, p, walk(ctx, st, b, fuel).unwrap()),
    decreases fuel, ctx.phi.len() + 1,
{
    if !st.visited.contains(b as usize) {
        lemma_visit_inv(ctx, p, st, b);
        let st1 = visit(ctx, st, b).unwrap();
        lemma_children_inv(ctx, p, st1, b, 0, fuel);
    }
}

/// The walk through the blocks that a block dominates immediately keeps
/// what holds of it.
pub proof fn lemma_children_inv(
    ctx: SsaCtx,
    p: spec_fn(Seq<char>) -> bool,
    st: SsaState,
    b: int,
    c: int,
    fuel: nat,
)
    requires
        plain(ctx, p),
        inv(ctx, p, st),
        children(ctx, st, b, c, fuel).is_ok(),
    ensures
        inv(ctx, p, children(ctx, st, b, c, fuel).unwrap()),
    decreases fuel, ctx.phi.len() - c,
{
    if c < 0 || c >= ctx.phi.len() || fuel == 0 {
    } else if ctx.idom[c] == Some(b as usize) {
        lemma_walk_inv(ctx, p, st, c, (fuel - 1) as nat);
        let st1 = walk(ctx, st, c, (fuel - 1) as nat).unwrap();
        lemma_children_inv(ctx, p, st1, b, c + 1, fuel);
    } else {
        lemma_children_inv(ctx, p, st, b, c + 1, fuel);
    }
}

/// Whether a name belongs to one of the first `n` blocks, by a way `own`
/// of telling which block a name belongs to.
pub open spec fn owned_below(own: spec_fn(Seq<char>, int) -> bool, nm: Seq<char>, n: int) -> bool {
    exists|j: int| 0 <= j < n && #[trigger] own(nm, j)
}

/// Whether block `j` writes names that belong to it, each once.
pub open spec fn block_ok(blk: BlockView, j: int, own: spec_fn(Seq<char>, int) -> bool) -> bool {
    &&& instr_dests(blk.all()).no_duplicates()
    &&& forall|k: int|
        0 <= k < instr_dests(blk.all()).len() ==> own(#[trigger] instr_dests(blk.all())[k], j)
}

/// Whether a name belongs to one block at most.
pub open spec fn one_owner(own: spec_fn(Seq<char>, int) -> bool, n: int) -> bool {
    forall|nm: Seq<char>, j1: int, j2: int|
        0 <= j1 < n && 0 <= j2 < n && #[trigger] own(nm, j1) && #[trigger] own(nm, j2) ==> j1
            == j2
}

/// The names written by two runs of lines, one after the other, are those
/// of the first and then those of the second.
pub proof fn lemma_code_dests_concat(x: Seq<CodeView>, y: Seq<CodeView>)
    ensures
        dests(x + y) == dests(x) + dests(y),
    decreases y.len(),
{
    if y.len() == 0 {
        assert(x + y =~= x);
        assert(dests(x) + dests(y) =~= dests(x));
    } else {
        lemma_code_dests_concat(x, y.drop_last());
        assert((x + y).drop_last() =~= x + y.drop_last());
        assert((x + y).last() == y.last());
        assert(dests(x + y) =~= dests(x) + dests(y));
    }
}

/// Instructions as lines write what the instructions write.
pub proof fn lemma_wrapped_dests(s: Seq<InstrView>)
    ensures
        dests(s.map_values(|i: InstrView| CodeView::Instruction(i))) == instr_dests(s),
    decreases s.len(),
{
    let lines = s.map_values(|i: InstrView| CodeView::Instruction(i));
    if s.len() > 0 {
        lemma_wrapped_dests(s.drop_last());
        assert(lines.drop_last() =~= s.drop_last().map_values(
            |i: InstrView| CodeView::Instruction(i),
        ));
        assert(lines.last() == CodeView::Instruction(s.last()));
    }
}

/// The lines of a block write what its instructions write.
pub proof fn lemma_flatten_dests(blk: BlockView)
    ensures
        dests(blk.flatten()) == instr_dests(blk.all()),
{
    let head = match blk.label {
        Some(l) => seq![CodeView::Label { label: l, pos: None }],
        None => seq![],
    };
    let body = blk.all().map_values(|i: InstrView| CodeView::Instruction(i));
    lemma_wrapped_dests(blk.all());
    lemma_code_dests_concat(head, body);
    assert(dests(head) =~= Seq::<Seq<char>>::empty()) by {
        if blk.label.is_some() {
            assert(head.drop_last() =~= Seq::<CodeView>::empty());
            assert(dests(head.drop_last()) =~= Seq::<Seq<char>>::empty());
        }
    }
    assert(dests(head) + dests(body) =~= dests(body));
}

/// Blocks that each write names of their own, each once, write no name
/// twice between them.
pub proof fn lemma_blocks_single(blocks: Seq<BlockView>, own: spec_fn(Seq<char>, int) -> bool)
    requires
        forall|j: int| 0 <= j < blocks.len() ==> block_ok(#[trigger] blocks[j], j, own),
        one_owner(own, blocks.len() as int),
    ensures
        dests(flatten_blocks(blocks)).no_duplicates(),
        forall|k: int|
            0 <= k < dests(flatten_blocks(blocks)).len() ==> owned_below(
                own,
                #[trigger] dests(flatten_blocks(blocks))[k],
                blocks.len() as int,
            ),
    decreases blocks.len(),
{
    if blocks.len() > 0 {
        let head = blocks.drop_last();
        let last = blocks.len() - 1;
        assert forall|j: int| 0 <= j < head.len() implies block_ok(#[trigger] head[j], j, own) by {
            assert(head[j] == blocks[j]);
        }
        lemma_blocks_single(head, own);
        lemma_flatten_dests(blocks.last());
        lemma_code_dests_concat(flatten_blocks(head), blocks.last().flatten());
        let x = dests(flatten_blocks(head));
        let y = instr_dests(blocks.last().all());
        assert(block_ok(blocks[last], last, own));
        assert forall|i: int, j: int| 0 <= i < x.len() && 0 <= j < y.len() implies x[i]
            != y[j] by {
            assert(owned_below(own, x[i], head.len() as int));
            let t = choose|t: int| 0 <= t < head.len() && #[trigger] own(x[i], t);
            if x[i] == y[j] {
                assert(own(y[j], last));
            }
        }
        lemma_concat_no_dup(x, y);
        assert forall|k: int| 0 <= k < (x + y).len() implies owned_below(
            own,
            #[trigger] (x + y)[k],
            blocks.len() as int,
        ) by {
            if k < x.len() {
                assert(owned_below(own, x[k], head.len() as int));
                let t = choose|t: int| 0 <= t < head.len() && #[trigger] own(x[k], t);
                assert(t < blocks.len() && own((x + y)[k], t));
            } else {
                assert(own(y[k - x.len()], last));
                assert(own((x + y)[k], last));
            }
        }
    }
}

/// The seeds of undefined variables write those variables, each once.
pub proof fn lemma_seeds_dests(und: Seq<(Seq<char>, Type)>)
    requires
        distinct_keys(und),
    ensures
        instr_dests(seeds(und)).no_duplicates(),
        forall|k: int|
            0 <= k < instr_dests(seeds(und)).len() ==> has_key(
                und,
                #[trigger] instr_dests(seeds(und))[k],
            ),
    decreases und.len(),
{
    if und.len() > 0 {
        let head = und.drop_last();
        assert(distinct_keys(head)) by {
            assert forall|i: int, j: int| 0 <= i < j < head.len() implies (#[trigger] head[i]).0
                != (#[trigger] head[j]).0 by {
                assert(und[i].0 != und[j].0);
            }
        }
        lemma_seeds_dests(head);
        let one = seq![undef_instr(und.last().0, und.last().1)];
        lemma_dests_one(undef_instr(und.last().0, und.last().1));
        lemma_dests_concat(one, seeds(head));
        let x = instr_dests(one);
        let y = instr_dests(seeds(head));
        assert(x =~= seq![und.last().0]);
        assert forall|i: int, j: int| 0 <= i < x.len() && 0 <= j < y.len() implies x[i]
            != y[j] by {
            assert(has_key(head, y[j]));
            let t = choose|t: int| 0 <= t < head.len() && (#[trigger] head[t]).0 == y[j];
            assert(und[t].0 != und[und.len() - 1].0);
        }
        lemma_concat_no_dup(x, y);
        assert forall|k: int| 0 <= k < (x + y).len() implies has_key(und, #[trigger] (x + y)[k]) by {
            if k == 0 {
                assert(und[und.len() - 1].0 == (x + y)[k]);
            } else {
                assert(has_key(head, y[k - 1]));
                let t = choose|t: int| 0 <= t < head.len() && (#[trigger] head[t]).0 == y[k - 1];
                assert(und[t].0 == (x + y)[k]);
            }
        }
    }
}

/// The blocks as the construction leaves them: the undefined variables
/// seeded at the top of the first block.
pub open spec fn finished(st: SsaState) -> Seq<BlockView> {
    reindexed(
        st.blocks.update(
            0,
            BlockView { instrs: seeds(st.r.undefined) + st.blocks[0].instrs, ..st.blocks[0] },
        ),
    )
}

/// Whether the names keep clear of one another at the end of a walk. No
/// variable recorded as undefined has the shape of a name made up at a
/// block that the walk has been at. The blocks that the walk has not been
/// at write no name twice, within one of them or between two, and none
/// that is recorded as undefined or has the shape of a name made up at a
/// block that the walk has been at.
pub open spec fn clear(orig: Seq<BlockView>, st: SsaState) -> bool {
    &&& forall|nm: Seq<char>, b: int|
        0 <= b < orig.len() && st.visited.contains(b as usize) && has_key(st.r.undefined, nm)
            ==> !#[trigger] name_at(b as nat, nm)
    &&& forall|j: int|
        0 <= j < orig.len() && !st.visited.contains(j as usize) ==> (#[trigger] instr_dests(
            orig[j].all(),
        )).no_duplicates()
    &&& forall|nm: Seq<char>, j1: int, j2: int|
        #![trigger instr_dests(orig[j1].all()).contains(nm), instr_dests(orig[j2].all()).contains(nm)]
        0 <= j1 < orig.len() && 0 <= j2 < orig.len() && j1 != j2 && !st.visited.contains(
            j1 as usize,
        ) && !st.visited.contains(j2 as usize) ==> !(instr_dests(orig[j1].all()).contains(nm)
            && instr_dests(orig[j2].all()).contains(nm))
    &&& forall|nm: Seq<char>, j: int|
        0 <= j < orig.len() && !st.visited.contains(j as usize) && #[trigger] instr_dests(
            orig[j].all(),
        ).contains(nm) ==> !has_key(st.r.undefined, nm)
    &&& forall|nm: Seq<char>, j: int, b: int|
        #![trigger instr_dests(orig[j].all()).contains(nm), name_at(b as nat, nm)]
        0 <= j < orig.len() && !st.visited.contains(j as usize) && 0 <= b < orig.len()
            && st.visited.contains(b as usize) && instr_dests(orig[j].all()).contains(nm)
            ==> !name_at(b as nat, nm)
}

/// The block that a name belongs to at the end of a walk: the block at
/// which it is made up, the first block if it is recorded as undefined,
/// the block that writes it if the walk has not been at the block.
pub open spec fn owner(orig: Seq<BlockView>, st: SsaState) -> spec_fn(Seq<char>, int) -> bool {
    |nm: Seq<char>, j: int|
        if st.visited.contains(j as usize) {
            name_at(j as nat, nm) || (j == 0 && has_key(st.r.undefined, nm))
        } else {
            instr_dests(orig[j].all()).contains(nm)
        }
}

/// Where the names keep clear of one another, the blocks with the
/// undefined variables seeded write no name twice.
pub proof fn lemma_walked_single(ctx: SsaCtx, orig: Seq<BlockView>, st: SsaState)
    requires
        inv(ctx, any_name(), st),
        orig.len() == st.blocks.len(),
        0 < orig.len() <= usize::MAX,
        st.visited.contains(0),
        forall|b: int|
            0 <= b < orig.len() && !st.visited.contains(b as usize) ==> (#[trigger] st.blocks[b])
                == orig[b],
        clear(orig, st),
    ensures
        dests(flatten_blocks(finished(st))).no_duplicates(),
{
    let blocks = finished(st);
    let own = owner(orig, st);
    let n = orig.len() as int;
    let sd = seeds(st.r.undefined);
    lemma_seeds_dests(st.r.undefined);
    assert forall|nm: Seq<char>, j1: int, j2: int|
        0 <= j1 < n && 0 <= j2 < n && #[trigger] own(nm, j1) && #[trigger] own(nm, j2) implies j1
        == j2 by {
        let v1 = st.visited.contains(j1 as usize);
        let v2 = st.visited.contains(j2 as usize);
        if v1 && v2 {
            if name_at(j1 as nat, nm) && name_at(j2 as nat, nm) {
                lemma_name_at_one_block(j1 as nat, j2 as nat, nm);
            }
        } else if v1 {
            assert(instr_dests(orig[j2].all()).contains(nm));
        } else if v2 {
            assert(instr_dests(orig[j1].all()).contains(nm));
        }
    }
    assert forall|j: int| 0 <= j < blocks.len() implies block_ok(#[trigger] blocks[j], j, own) by {
        if st.visited.contains(j as usize) {
            assert(renamed_ok(st.blocks[j].all(), j as nat));
            let y = instr_dests(st.blocks[j].all());
            if j == 0 {
                let x = instr_dests(sd);
                assert(blocks[0].all() =~= sd + st.blocks[0].all());
                lemma_dests_concat(sd, st.blocks[0].all());
                assert forall|i: int, k: int| 0 <= i < x.len() && 0 <= k < y.len() implies x[i]
                    != y[k] by {
                    assert(has_key(st.r.undefined, x[i]));
                    assert(name_at(0, y[k]));
                }
                lemma_concat_no_dup(x, y);
                assert forall|k: int| 0 <= k < (x + y).len() implies own(
                    #[trigger] (x + y)[k],
                    0,
                ) by {
                    if k < x.len() {
                        assert(has_key(st.r.undefined, x[k]));
                    } else {
                        assert(name_at(0, y[k - x.len()]));
                    }
                }
            } else {
                assert(blocks[j].all() == st.blocks[j].all());
                assert forall|k: int| 0 <= k < y.len() implies own(#[trigger] y[k], j) by {
                    assert(name_at(j as nat, y[k]));
                }
            }
        } else {
            assert(st.blocks[j] == orig[j]);
            assert(blocks[j].all() == orig[j].all());
            let y = instr_dests(orig[j].all());
            assert forall|k: int| 0 <= k < y.len() implies own(#[trigger] y[k], j) by {
                assert(y.contains(y[k]));
            }
        }
    }
    lemma_blocks_single(blocks, own);
}

/// Whether the walk has been at every block that a block dominates
/// immediately at which it has newly been.
pub open spec fn kids_in(ctx: SsaCtx, before: Set<usize>, after: Set<usize>) -> bool {
    forall|x: usize, c: int|
        #![trigger after.contains(x), ctx.idom[c]]
        after.contains(x) && !before.contains(x) && 0 <= c < ctx.phi.len() && ctx.idom[c] == Some(
            x,
        ) ==> after.contains(c as usize)
}

/// The walk from a block, with a level left for each block that it has not
/// been at, leaves no block out: it has been at the block, and at every
/// block that a block dominates immediately at which it has newly been.
pub proof fn lemma_walk_covers(ctx: SsaCtx, st: SsaState, b: int, fuel: nat)
    requires
        ctx.phi.len() <= usize::MAX,
        0 <= b < ctx.phi.len(),
        walk(ctx, st, b, fuel).is_ok(),
        seen(st.visited, ctx.phi.len()) + fuel >= ctx.phi.len(),
    ensures
        st.visited.subset_of(walk(ctx, st, b, fuel).unwrap().visited),
        walk(ctx, st, b, fuel).unwrap().visited.contains(b as usize),
        kids_in(ctx, st.visited, walk(ctx, st, b, fuel).unwrap().visited),
    decreases fuel, ctx.phi.len() + 1,
{
    if !st.visited.contains(b as usize) {
        let st1 = visit(ctx, st, b).unwrap();
        lemma_seen_insert(st.visited, b as usize, ctx.phi.len());
        lemma_children_covers(ctx, st1, b, 0, fuel);
        let last = children(ctx, st1, b, 0, fuel).unwrap().visited;
        assert forall|x: usize, c: int|
            #![trigger last.contains(x), ctx.idom[c]]
            last.contains(x) && !st.visited.contains(x) && 0 <= c < ctx.phi.len() && ctx.idom[c]
                == Some(x) implies last.contains(c as usize) by {
            if x != b as usize {
                assert(!st1.visited.contains(x));
            }
        }
    }
}

/// The walk through the blocks from `c` on that `b` dominates immediately,
/// with a level left for each block that it has not been at and one more,
/// leaves none of them out.
pub proof fn lemma_children_covers(ctx: SsaCtx, st: SsaState, b: int, c: int, fuel: nat)
    requires
        ctx.phi.len() <= usize::MAX,
        0 <= b < ctx.phi.len(),
        0 <= c,
        children(ctx, st, b, c, fuel).is_ok(),
        seen(st.visited, ctx.phi.len()) + fuel >= ctx.phi.len() + 1,
    ensures
        st.visited.subset_of(children(ctx, st, b, c, fuel).unwrap().visited),
        forall|k: int|
            c <= k < ctx.phi.len() && #[trigger] ctx.idom[k] == Some(b as usize) ==> children(
                ctx,
                st,
                b,
                c,
                fuel,
            ).unwrap().visited.contains(k as usize),
        kids_in(ctx, st.visited, children(ctx, st, b, c, fuel).unwrap().visited),
    decreases fuel, ctx.phi.len() - c,
{
    lemma_seen_bound(st.visited, ctx.phi.len());
    if c >= ctx.phi.len() {
    } else if ctx.idom[c] == Some(b as usize) {
        lemma_walk_covers(ctx, st, c, (fuel - 1) as nat);
        let st1 = walk(ctx, st, c, (fuel - 1) as nat).unwrap();
        lemma_seen_grows(st.visited, st1.visited, ctx.phi.len());
        lemma_children_covers(ctx, st1, b, c + 1, fuel);
        let last = children(ctx, st1, b, c + 1, fuel).unwrap().visited;
        assert forall|x: usize, k: int|
            #![trigger last.contains(x), ctx.idom[k]]
            last.contains(x) && !st.visited.contains(x) && 0 <= k < ctx.phi.len() && ctx.idom[k]
                == Some(x) implies last.contains(k as usize) by {
            if st1.visited.contains(x) {
                assert(st1.visited.contains(k as usize));
            }
        }
    } else {
        lemma_children_covers(ctx, st, b, c + 1, fuel);
    }
}

/// A walk that has left no block out has been at every block that hangs
/// below the first block.
pub proof fn lemma_under_visited(ctx: SsaCtx, v: Set<usize>, c: int, k: nat)
    requires
        0 < ctx.phi.len() <= usize::MAX,
        ctx.idom.len() == ctx.phi.len(),
        v.contains(0),
        kids_in(ctx, Set::empty(), v),
        0 <= c < ctx.phi.len(),
        under(ctx.idom, c, k),
    ensures
        v.contains(c as usize),
    decreases k,
{
    if c != 0 {
        reveal_with_fuel(under, 2);
        let p = ctx.idom[c].unwrap();
        lemma_under_visited(ctx, v, p as int, (k - 1) as nat);
        assert(v.contains(p) && ctx.idom[c] == Some(p));
    }
}

/// Whether no name that a function writes holds a dot.
pub open spec fn dotless_writes(f: FunctionView) -> bool {
    forall|k: int| 0 <= k < dests(f.instrs).len() ==> dotless(#[trigger] dests(f.instrs)[k])
}

/// A name that one instruction of a run writes is among the names that the
/// run writes.
pub proof fn lemma_written(s: Seq<InstrView>, k: int)
    requires
        0 <= k < s.len(),
        s[k].dest().is_some(),
    ensures
        instr_dests(s).contains(s[k].dest().unwrap()),
    decreases s.len(),
{
    let d = instr_dests(s);
    let head = instr_dests(s.drop_last());
    if k == s.len() - 1 {
        assert(d[d.len() - 1] == s[k].dest().unwrap());
    } else {
        lemma_written(s.drop_last(), k);
        let j = choose|j: int| 0 <= j < head.len() && head[j] == s[k].dest().unwrap();
        assert(d[j] == head[j]);
    }
}

/// A name that a block writes is among the names that the lines of the
/// blocks write.
pub proof fn lemma_block_written(blocks: Seq<BlockView>, b: int, v: Seq<char>)
    requires
        0 <= b < blocks.len(),
        writes(blocks[b], v),
    ensures
        dests(flatten_blocks(blocks)).contains(v),
    decreases blocks.len(),
{
    let head = blocks.drop_last();
    lemma_code_dests_concat(flatten_blocks(head), blocks.last().flatten());
    let x = dests(flatten_blocks(head));
    let y = dests(blocks.last().flatten());
    if b == blocks.len() - 1 {
        lemma_flatten_dests(blocks.last());
        let i = choose|i: int|
            0 <= i < blocks[b].all().len() && (#[trigger] blocks[b].all()[i]).dest() == Some(v);
        lemma_written(blocks[b].all(), i);
        let j = choose|j: int| 0 <= j < y.len() && y[j] == v;
        assert((x + y)[x.len() + j] == v);
    } else {
        assert(head[b] == blocks[b]);
        lemma_block_written(head, b, v);
        let j = choose|j: int| 0 <= j < x.len() && x[j] == v;
        assert((x + y)[j] == v);
    }
}

/// Lines without the source positions of their labels write what the
/// lines write.
pub proof fn lemma_bare_dests(codes: Seq<CodeView>)
    ensures
        dests(codes.map_values(|c: CodeView| bare(c))) == dests(codes),
    decreases codes.len(),
{
    let lines = codes.map_values(|c: CodeView| bare(c));
    if codes.len() > 0 {
        lemma_bare_dests(codes.drop_last());
        assert(lines.drop_last() =~= codes.drop_last().map_values(|c: CodeView| bare(c)));
        assert(lines.last() == bare(codes.last()));
    }
}

/// A name that a block of the prepared function writes is written by the
/// function.
pub proof fn lemma_prepared_written(f: FunctionView, b: int, v: Seq<char>)
    requires
        f.instrs.len() <= usize::MAX,
        0 <= b < prepared(f).len(),
        writes(prepared(f)[b], v),
    ensures
        dests(f.instrs).contains(v),
{
    let blocks = block_form(f).blocks;
    lemma_scan(f.instrs);
    lemma_bare_dests(f.instrs);
    if blocks.len() > 0 && blocks[0].label.is_some() {
        let first = BlockView { idx: 0, label: None, instrs: seq![], control_flow: None };
        let all = seq![first] + blocks;
        assert(prepared(f)[b].all() == all[b].all());
        if b == 0 {
            assert(all[0].all().len() == 0);
        } else {
            assert(all[b] == blocks[b - 1]);
            assert(writes(blocks[b - 1], v));
            lemma_block_written(blocks, b - 1, v);
        }
    } else {
        assert(prepared(f)[b].all() == blocks[b].all());
        assert(writes(blocks[b], v));
        lemma_block_written(blocks, b, v);
    }
}

/// A variable that has a type is written by the function.
pub proof fn lemma_typed_written(codes: Seq<CodeView>, nm: Seq<char>)
    requires
        types_of(codes).contains_key(nm),
    ensures
        dests(codes).contains(nm),
    decreases codes.len(),
{
    if codes.len() > 0 {
        let d = dests(codes);
        let head = dests(codes.drop_last());
        if types_of(codes.drop_last()).contains_key(nm) {
            lemma_typed_written(codes.drop_last(), nm);
            let j = choose|j: int| 0 <= j < head.len() && head[j] == nm;
            assert(d[j] == nm);
        } else {
            assert(d[d.len() - 1] == nm);
        }
    }
}

/// What the walk goes by is in order for a function that writes no name
/// with a dot.
pub proof fn lemma_ctx_plain(
    f: FunctionView,
    tree: &DominatorTree,
    phi: Seq<Seq<(Seq<char>, Type)>>,
)
    requires
        f.instrs.len() <= usize::MAX,
        tree.wf(),
        tree.cfg.func@.blocks == prepared(f),
        exact(phi, tree),
        single(phi),
        dotless_writes(f),
    ensures
        plain(ctx_of(tree, phi, types_of(f.instrs)), dotless_name()),
{
    let types = types_of(f.instrs);
    let ctx = ctx_of(tree, phi, types);
    let p = dotless_name();
    assert forall|b: int, k: int|
        0 <= b < ctx.succs.len() && 0 <= k < ctx.succs[b].len() implies (
    #[trigger] ctx.succs[b][k]) < ctx.phi.len() by {
        lemma_neighbours_in_range(&tree.cfg, b as usize);
    }
    assert forall|b: int| 0 <= b < ctx.phi.len() implies keys_ok(#[trigger] ctx.phi[b], p) by {
        assert forall|k: int| 0 <= k < phi[b].len() implies p((#[trigger] phi[b][k]).0) by {
            let v = phi[b][k].0;
            assert(has_key(phi[b], v));
            assert(merges(tree, v, b as usize));
            let c = choose|c: Seq<usize>| #[trigger]
                chain_ok(tree, v, c) && c.len() >= 2 && c.last() == b as usize;
            assert(c[0] < tree.cfg.size());
            lemma_prepared_written(f, c[0] as int, v);
            let j = choose|j: int| 0 <= j < dests(f.instrs).len() && dests(f.instrs)[j] == v;
            assert(dotless(dests(f.instrs)[j]));
        }
    }
    assert forall|nm: Seq<char>| ctx.types.contains_key(nm) implies p(nm) by {
        lemma_typed_written(f.instrs, nm);
        let j = choose|j: int| 0 <= j < dests(f.instrs).len() && dests(f.instrs)[j] == nm;
        assert(dotless(dests(f.instrs)[j]));
    }
}

/// What the walk goes by is in order for every function.
pub proof fn lemma_ctx_any(f: FunctionView, tree: &DominatorTree, phi: Seq<Seq<(Seq<char>, Type)>>)
    requires
        tree.wf(),
        tree.cfg.func@.blocks == prepared(f),
        phi.len() == tree.cfg.size(),
        single(phi),
    ensures
        plain(ctx_of(tree, phi, types_of(f.instrs)), any_name()),
{
    let ctx = ctx_of(tree, phi, types_of(f.instrs));
    assert forall|b: int, k: int|
        0 <= b < ctx.succs.len() && 0 <= k < ctx.succs[b].len() implies (
    #[trigger] ctx.succs[b][k]) < ctx.phi.len() by {
        lemma_neighbours_in_range(&tree.cfg, b as usize);
    }
}

/// The state in which the walk starts on a function.
pub open spec fn start_state(f: FunctionView) -> SsaState {
    SsaState {
        blocks: prepared(f),
        r: Renaming { stack: initial(f.args), undefined: seq![] },
        visited: Set::empty(),
    }
}

/// The state in which the walk ends on a function, where it does not
/// fail.
pub open spec fn end_state(
    f: FunctionView,
    tree: &DominatorTree,
    phi: Seq<Seq<(Seq<char>, Type)>>,
) -> SsaState {
    walk(
        ctx_of(tree, phi, types_of(f.instrs)),
        start_state(f),
        0,
        prepared(f).len(),
    ).unwrap()
}

/// What holds of the walk holds at its start.
pub proof fn lemma_start_inv(
    f: FunctionView,
    tree: &DominatorTree,
    phi: Seq<Seq<(Seq<char>, Type)>>,
    p: spec_fn(Seq<char>) -> bool,
)
    requires
        tree.wf(),
        tree.cfg.func@.blocks == prepared(f),
        phi.len() == tree.cfg.size(),
    ensures
        inv(ctx_of(tree, phi, types_of(f.instrs)), p, start_state(f)),
{
    let start = start_state(f);
    assert forall|b: int| 0 <= b < start.blocks.len() implies (#[trigger] start.blocks[b]).wf() by {
        assert(tree.cfg.func@.blocks[b].wf());
    }
    assert(start.r.undefined.len() == 0);
}

/// SSA construction gives a function in which no name is written twice,
/// where the names keep clear of one another at the end of the walk.
pub proof fn lemma_single_definition(
    f: FunctionView,
    tree: &DominatorTree,
    phi: Seq<Seq<(Seq<char>, Type)>>,
    r: FunctionView,
)
    requires
        tree.wf(),
        tree.cfg.func@.blocks == prepared(f),
        prepared(f).len() > 0,
        phi.len() == tree.cfg.size(),
        single(phi),
        clear(prepared(f), end_state(f, tree, phi)),
        ssa_form(f, tree, phi) == Ok::<FunctionView, PassError>(r),
    ensures
        is_ssa(r),
{
    let ctx = ctx_of(tree, phi, types_of(f.instrs));
    let orig = prepared(f);
    let n = orig.len();
    let start = start_state(f);
    let st = end_state(f, tree, phi);
    lemma_ctx_any(f, tree, phi);
    lemma_start_inv(f, tree, phi, any_name());
    lemma_walk_inv(ctx, any_name(), start, 0, n);
    lemma_start_settled(f, tree, phi);
    lemma_walk_settled(ctx, orig, arg_names(f.args), start, 0, n);
    lemma_walk_covers(ctx, start, 0, n);
    lemma_walked_single(ctx, orig, st);
}

/// The names keep clear of one another at the end of the walk, if no name
/// that the function writes holds a dot, and every block hangs below the
/// first block in the dominator tree.
pub proof fn lemma_clear_plain(
    f: FunctionView,
    tree: &DominatorTree,
    phi: Seq<Seq<(Seq<char>, Type)>>,
)
    requires
        f.instrs.len() <= usize::MAX,
        tree.wf(),
        tree.cfg.func@.blocks == prepared(f),
        prepared(f).len() > 0,
        exact(phi, tree),
        single(phi),
        dotless_writes(f),
        tree_rooted(tree),
        ssa_form(f, tree, phi).is_ok(),
    ensures
        clear(prepared(f), end_state(f, tree, phi)),
        forall|b: usize| b < prepared(f).len() ==> end_state(f, tree, phi).visited.contains(b),
{
    let ctx = ctx_of(tree, phi, types_of(f.instrs));
    let orig = prepared(f);
    let n = orig.len();
    let start = start_state(f);
    let st = end_state(f, tree, phi);
    let p = dotless_name();
    lemma_ctx_plain(f, tree, phi);
    lemma_start_inv(f, tree, phi, p);
    lemma_walk_inv(ctx, p, start, 0, n);
    assert(ctx.idom =~= Seq::new(tree.cfg.size(), |i: int| tree.immediate_doms@[i]));
    lemma_walk_covers(ctx, start, 0, n);
    assert forall|b: usize| b < orig.len() implies st.visited.contains(b) by {
        assert(hangs(ctx.idom, b as int));
        let k = choose|k: nat| #[trigger] under(ctx.idom, b as int, k);
        lemma_under_visited(ctx, st.visited, b as int, k);
    }
    assert forall|nm: Seq<char>, b: int|
        0 <= b < orig.len() && st.visited.contains(b as usize) && has_key(
            st.r.undefined,
            nm,
        ) implies !#[trigger] name_at(b as nat, nm) by {
        let t = choose|t: int|
            0 <= t < st.r.undefined.len() && (#[trigger] st.r.undefined[t]).0 == nm;
        assert(p(st.r.undefined[t].0));
        if name_at(b as nat, nm) {
            lemma_name_at_dotted(b as nat, nm);
        }
    }
}

/// What `to_ssa` returns writes no name twice, where the names keep clear
/// of one another at the end of the walk.
pub proof fn lemma_to_ssa_single(f: FunctionView, r: FunctionView)
    requires
        forall|tree: DominatorTree|
            #[trigger] tree.wf() && tree.cfg.func@.blocks == prepared(f) ==> clear(
                prepared(f),
                end_state(f, &tree, merge_readers(&tree)),
            ),
        to_ssa_rel(f, Ok(r)),
    ensures
        is_ssa(r),
{
    let out = Ok::<FunctionView, PassError>(r);
    let g = BBFunctionView { blocks: prepared(f), ..block_form(f) };
    let cfg = choose|cfg: CFG|
        #![trigger outcome(f, &cfg, out)]
        cfg.wf() && !cfg.reversed && cfg.func@ == g && outcome(f, &cfg, out);
    assert(walked(f, &cfg, out));
    let tree = choose|tree: DominatorTree|
        #![trigger merge_readers(&tree)]
        tree.wf() && tree.cfg == cfg && closed(merge_readers(&tree), &tree) && exact(
            merge_readers(&tree),
            &tree,
        ) && single(merge_readers(&tree)) && ssa_form(f, &tree, merge_readers(&tree)) == out;
    lemma_single_definition(f, &tree, merge_readers(&tree), r);
}

/// What `to_ssa` returns writes no name twice, if no name that the function
/// writes holds a dot, and every block of the prepared function can be
/// reached from a block that nothing leads to.
pub proof fn lemma_to_ssa_single_plain(f: FunctionView, r: FunctionView)
    requires
        f.instrs.len() <= usize::MAX,
        dotless_writes(f),
        forall|cfg: CFG|
            #[trigger] cfg.wf() && !cfg.reversed && cfg.func@.blocks == prepared(f) ==> connected(
                &cfg,
            ),
        to_ssa_rel(f, Ok(r)),
    ensures
        is_ssa(r),
{
    let out = Ok::<FunctionView, PassError>(r);
    let g = BBFunctionView { blocks: prepared(f), ..block_form(f) };
    let cfg = choose|cfg: CFG|
        #![trigger outcome(f, &cfg, out)]
        cfg.wf() && !cfg.reversed && cfg.func@ == g && outcome(f, &cfg, out);
    assert(walked(f, &cfg, out));
    let tree = choose|tree: DominatorTree|
        #![trigger merge_readers(&tree)]
        tree.wf() && tree.cfg == cfg && closed(merge_readers(&tree), &tree) && exact(
            merge_readers(&tree),
            &tree,
        ) && single(merge_readers(&tree)) && ssa_form(f, &tree, merge_readers(&tree)) == out;
    assert(prepared(f)[0].label.is_none());
    lemma_unlabelled_entry(&cfg);
    lemma_whole_rooted(&tree);
    lemma_clear_plain(f, &tree, merge_readers(&tree));
    lemma_single_definition(f, &tree, merge_readers(&tree), r);
}

} // verus!
