//! What holds of the names that SSA construction reads and writes: every
//! name that an instruction of the result reads is an argument of the
//! function or is written in the result, unless it is tied to a block
//! that the walk has not been at; and no argument is written, unless it
//! has the shape of a made-up name or a block outside the walk writes
//! it.
use crate::basic_block::BlockView;
use crate::bb_function::{block_form, flatten_blocks, BBFunctionView};
use crate::cfg::{lemma_neighbours_in_range, CFG};
use crate::dominator_tree::DominatorTree;
use crate::ir::{arg_names, ArgView, CodeView, FunctionView, InstrView, Type};
use crate::lvn::rebuild;
use crate::name_stack::{initial, pushed, shadow_spec, top, unique_spec};
use crate::passes::PassError;
use crate::phi::{closed, exact, merge_readers, single, writes};
use crate::ssa::{
    all_sets, children, ctx_of, enter, get_instr, outcome, prepared, record, reindexed,
    rename_all, rename_args, rename_instr, seeds, sets_for, ssa_form, to_ssa_rel, types_of,
    undef_instr, visit, walk, walked, Renaming, SsaCtx, SsaState,
};
use crate::ssa_laws::{
    any_name, dotless, end_state, finished, lemma_name_at_dotted, instr_dests, lemma_block_written, lemma_code_dests_concat,
    lemma_ctx_any, lemma_dests_concat, lemma_dests_member, lemma_dests_one,
    lemma_flatten_dests, lemma_seeds_dests, lemma_start_inv, lemma_under_visited,
    lemma_walk_covers, lemma_walk_inv, lemma_written, name_at, renamed_ok, start_state,
};
use crate::ssa_lower::dests;
use crate::tdce::code_args;
use crate::tree_laws::{
    connected, hangs, lemma_unlabelled_entry, lemma_whole_rooted, tree_rooted, under,
};
use crate::type_map::{has_key, lemma_insert_keys};
use vstd::prelude::*;

verus! {

/// Whether the name that holds the value of each variable is in order.
pub open spec fn tops_ok(
    stack: Map<Seq<char>, Seq<Seq<char>>>,
    ok: spec_fn(Seq<char>) -> bool,
) -> bool {
    forall|v: Seq<char>| (#[trigger] top(stack, v)).is_some() ==> ok(top(stack, v).unwrap())
}

/// Whether each of the names `held` has a name that holds its value.
pub open spec fn holds_all(stack: Map<Seq<char>, Seq<Seq<char>>>, held: Seq<Seq<char>>) -> bool {
    forall|a: Seq<char>| held.contains(a) ==> (#[trigger] top(stack, a)).is_some()
}

/// Whether a record of undefined variables has grown from another: it
/// holds what the other held, and none of the names `held` besides.
pub open spec fn keeps(
    before: Seq<(Seq<char>, Type)>,
    after: Seq<(Seq<char>, Type)>,
    held: Seq<Seq<char>>,
) -> bool {
    &&& forall|nm: Seq<char>| #[trigger] has_key(before, nm) ==> has_key(after, nm)
    &&& forall|nm: Seq<char>| #[trigger]
        has_key(after, nm) ==> has_key(before, nm) || !held.contains(nm)
}

/// Whether every name that a run of instructions reads is in order or
/// recorded as undefined.
pub open spec fn names_ok(
    s: Seq<InstrView>,
    ok: spec_fn(Seq<char>) -> bool,
    und: Seq<(Seq<char>, Type)>,
) -> bool {
    forall|k: int, j: int|
        0 <= k < s.len() && 0 <= j < s[k].arg_list().len() ==> ok(
            #[trigger] s[k].arg_list()[j],
        ) || has_key(und, s[k].arg_list()[j])
}

/// A record that has grown keeps the names of a run in order.
pub proof fn lemma_names_kept(
    s: Seq<InstrView>,
    ok: spec_fn(Seq<char>) -> bool,
    before: Seq<(Seq<char>, Type)>,
    after: Seq<(Seq<char>, Type)>,
    held: Seq<Seq<char>>,
)
    requires
        names_ok(s, ok, before),
        keeps(before, after, held),
    ensures
        names_ok(s, ok, after),
{
    assert forall|k: int, j: int| 0 <= k < s.len() && 0 <= j < s[k].arg_list().len() implies ok(
        #[trigger] s[k].arg_list()[j],
    ) || has_key(after, s[k].arg_list()[j]) by {
        if !ok(s[k].arg_list()[j]) {
            assert(has_key(before, s[k].arg_list()[j]));
        }
    }
}

/// A name in order, pushed for a variable, leaves the stacks in order.
pub proof fn lemma_pushed_tops(
    stack: Map<Seq<char>, Seq<Seq<char>>>,
    v: Seq<char>,
    n: Seq<char>,
    ok: spec_fn(Seq<char>) -> bool,
    held: Seq<Seq<char>>,
)
    requires
        tops_ok(stack, ok),
        holds_all(stack, held),
        ok(n),
    ensures
        tops_ok(pushed(stack, v, n), ok),
        holds_all(pushed(stack, v, n), held),
{
    let s = pushed(stack, v, n);
    assert forall|x: Seq<char>| (#[trigger] top(s, x)).is_some() implies ok(
        top(s, x).unwrap(),
    ) by {
        if x != v {
            assert(top(s, x) == top(stack, x));
        }
    }
    assert forall|a: Seq<char>| held.contains(a) implies (#[trigger] top(s, a)).is_some() by {
        if a != v {
            assert(top(stack, a).is_some());
            assert(top(s, a) == top(stack, a));
        }
    }
}

/// Recording a variable that is none of the names `held` lets the record
/// grow.
pub proof fn lemma_record_keeps(
    und: Seq<(Seq<char>, Type)>,
    name: Seq<char>,
    ty: Type,
    held: Seq<Seq<char>>,
)
    requires
        !held.contains(name),
    ensures
        keeps(und, record(und, name, ty), held),
        has_key(record(und, name, ty), name),
{
    lemma_insert_keys(und, name, ty);
}

/// One record grown from another, grown from a third, has grown from the
/// third.
pub proof fn lemma_keeps_on(
    a: Seq<(Seq<char>, Type)>,
    b: Seq<(Seq<char>, Type)>,
    c: Seq<(Seq<char>, Type)>,
    held: Seq<Seq<char>>,
)
    requires
        keeps(a, b, held),
        keeps(b, c, held),
    ensures
        keeps(a, c, held),
{
    assert forall|nm: Seq<char>| #[trigger] has_key(a, nm) implies has_key(c, nm) by {
        assert(has_key(b, nm));
    }
    assert forall|nm: Seq<char>| #[trigger] has_key(c, nm) implies has_key(a, nm)
        || !held.contains(nm) by {
        if has_key(b, nm) {
        }
    }
}

/// The renamed arguments are names in order, or recorded as undefined.
pub proof fn lemma_rename_args_reads(
    r: Renaming,
    types: Map<Seq<char>, Type>,
    args: Seq<Seq<char>>,
    ok: spec_fn(Seq<char>) -> bool,
    held: Seq<Seq<char>>,
)
    requires
        tops_ok(r.stack, ok),
        holds_all(r.stack, held),
        rename_args(r, types, args).is_ok(),
    ensures
        rename_args(r, types, args).unwrap().0.stack == r.stack,
        rename_args(r, types, args).unwrap().1.len() == args.len(),
        keeps(r.undefined, rename_args(r, types, args).unwrap().0.undefined, held),
        forall|j: int|
            0 <= j < args.len() ==> ok(#[trigger] rename_args(r, types, args).unwrap().1[j])
                || has_key(
                rename_args(r, types, args).unwrap().0.undefined,
                rename_args(r, types, args).unwrap().1[j],
            ),
    decreases args.len(),
{
    if args.len() > 0 {
        lemma_rename_args_reads(r, types, args.drop_last(), ok, held);
        let (r1, done) = rename_args(r, types, args.drop_last()).unwrap();
        let (r2, out) = rename_args(r, types, args).unwrap();
        let a = args.last();
        match top(r1.stack, a) {
            Some(n) => {
                assert(ok(n));
            },
            None => {
                assert(!held.contains(a));
                lemma_record_keeps(r1.undefined, a, types[a], held);
                lemma_keeps_on(r.undefined, r1.undefined, r2.undefined, held);
            },
        }
        assert forall|j: int| 0 <= j < args.len() implies ok(#[trigger] out[j]) || has_key(
            r2.undefined,
            out[j],
        ) by {
            if j < args.len() - 1 {
                assert(out[j] == done[j]);
                if !ok(done[j]) {
                    assert(has_key(r1.undefined, done[j]));
                }
            }
        }
    }
}

/// The renamed instructions read names in order or recorded as undefined,
/// write the names made up for their positions, and leave the stacks in
/// order.
pub proof fn lemma_rename_all_reads(
    r: Renaming,
    types: Map<Seq<char>, Type>,
    all: Seq<InstrView>,
    b: nat,
    n: int,
    ok: spec_fn(Seq<char>) -> bool,
    held: Seq<Seq<char>>,
)
    requires
        tops_ok(r.stack, ok),
        holds_all(r.stack, held),
        0 <= n <= all.len(),
        forall|k: int|
            0 <= k < n && (#[trigger] all[k]).dest().is_some() ==> ok(
                unique_spec(all[k].dest().unwrap(), b, k as nat),
            ),
        rename_all(r, types, all, b, n).is_ok(),
    ensures
        rename_all(r, types, all, b, n).unwrap().1.len() == n,
        tops_ok(rename_all(r, types, all, b, n).unwrap().0.stack, ok),
        holds_all(rename_all(r, types, all, b, n).unwrap().0.stack, held),
        keeps(r.undefined, rename_all(r, types, all, b, n).unwrap().0.undefined, held),
        names_ok(
            rename_all(r, types, all, b, n).unwrap().1,
            ok,
            rename_all(r, types, all, b, n).unwrap().0.undefined,
        ),
        forall|k: int|
            0 <= k < n ==> (#[trigger] rename_all(r, types, all, b, n).unwrap().1[k]).dest() == (
            match all[k].dest() {
                Some(d) => Some(unique_spec(d, b, k as nat)),
                None => None,
            }),
    decreases n,
{
    if n > 0 {
        lemma_rename_all_reads(r, types, all, b, n - 1, ok, held);
        let (r1, done) = rename_all(r, types, all, b, n - 1).unwrap();
        let i = all[n - 1];
        lemma_rename_args_reads(r1, types, i.arg_list(), ok, held);
        let (ra, args) = rename_args(r1, types, i.arg_list()).unwrap();
        let (r2, x) = rename_instr(r1, types, i, b, (n - 1) as nat).unwrap();
        let out = done.push(x);
        lemma_keeps_on(r.undefined, r1.undefined, ra.undefined, held);
        assert(r2.undefined == ra.undefined);
        match i.dest() {
            Some(d) => {
                assert(all[n - 1].dest().is_some());
                lemma_pushed_tops(ra.stack, d, unique_spec(d, b, (n - 1) as nat), ok, held);
            },
            None => {},
        }
        lemma_names_kept(done, ok, r1.undefined, r2.undefined, held);
        assert forall|k: int, j: int|
            0 <= k < out.len() && 0 <= j < out[k].arg_list().len() implies ok(
            #[trigger] out[k].arg_list()[j],
        ) || has_key(r2.undefined, out[k].arg_list()[j]) by {
            if k < n - 1 {
                assert(out[k] == done[k]);
                assert(ok(done[k].arg_list()[j]) || has_key(r2.undefined, done[k].arg_list()[j]));
            } else {
                assert(x.arg_list()[j] == args[j]);
            }
        }
        assert forall|k: int| 0 <= k < n implies (#[trigger] out[k]).dest() == (match all[k].dest() {
            Some(d) => Some(unique_spec(d, b, k as nat)),
            None => None,
        }) by {
            if k < n - 1 {
                assert(out[k] == done[k]);
            }
        }
    }
}

/// The writes to the merge readers of a successor read names in order or
/// recorded as undefined.
pub proof fn lemma_sets_for_reads(
    r: Renaming,
    phis: Seq<(Seq<char>, Type)>,
    succ: nat,
    ok: spec_fn(Seq<char>) -> bool,
    held: Seq<Seq<char>>,
)
    requires
        tops_ok(r.stack, ok),
        holds_all(r.stack, held),
        forall|k: int| 0 <= k < phis.len() ==> ok(shadow_spec((#[trigger] phis[k]).0, succ)),
    ensures
        sets_for(r, phis, succ).0.stack == r.stack,
        keeps(r.undefined, sets_for(r, phis, succ).0.undefined, held),
        names_ok(sets_for(r, phis, succ).1, ok, sets_for(r, phis, succ).0.undefined),
    decreases phis.len(),
{
    if phis.len() > 0 {
        let head = phis.drop_last();
        assert forall|k: int| 0 <= k < head.len() implies ok(
            shadow_spec((#[trigger] head[k]).0, succ),
        ) by {
            assert(head[k] == phis[k]);
        }
        lemma_sets_for_reads(r, head, succ, ok, held);
        let (r1, done) = sets_for(r, head, succ);
        let (r2, out) = sets_for(r, phis, succ);
        let (dst, ty) = phis.last();
        assert(phis[phis.len() - 1].0 == dst);
        assert(ok(shadow_spec(dst, succ)));
        match top(r1.stack, dst) {
            Some(n) => {
                assert(ok(n));
            },
            None => {
                assert(!held.contains(dst));
                lemma_record_keeps(r1.undefined, dst, ty, held);
                lemma_keeps_on(r.undefined, r1.undefined, r2.undefined, held);
            },
        }
        lemma_names_kept(done, ok, r1.undefined, r2.undefined, held);
        assert forall|k: int, j: int|
            0 <= k < out.len() && 0 <= j < out[k].arg_list().len() implies ok(
            #[trigger] out[k].arg_list()[j],
        ) || has_key(r2.undefined, out[k].arg_list()[j]) by {
            if k < done.len() {
                assert(out[k] == done[k]);
                assert(ok(done[k].arg_list()[j]) || has_key(r2.undefined, done[k].arg_list()[j]));
            }
        }
    }
}

/// The writes to the merge readers of all successors read names in order
/// or recorded as undefined.
pub proof fn lemma_all_sets_reads(
    r: Renaming,
    phi: Seq<Seq<(Seq<char>, Type)>>,
    succs: Seq<usize>,
    k: int,
    ok: spec_fn(Seq<char>) -> bool,
    held: Seq<Seq<char>>,
)
    requires
        tops_ok(r.stack, ok),
        holds_all(r.stack, held),
        k <= succs.len(),
        forall|j: int| 0 <= j < succs.len() ==> (#[trigger] succs[j]) < phi.len(),
        forall|s: int, i: int|
            0 <= s < phi.len() && 0 <= i < phi[s].len() ==> ok(
                shadow_spec((#[trigger] phi[s][i]).0, s as nat),
            ),
    ensures
        all_sets(r, phi, succs, k).0.stack == r.stack,
        keeps(r.undefined, all_sets(r, phi, succs, k).0.undefined, held),
        names_ok(all_sets(r, phi, succs, k).1, ok, all_sets(r, phi, succs, k).0.undefined),
    decreases k,
{
    if k > 0 {
        lemma_all_sets_reads(r, phi, succs, k - 1, ok, held);
        let (r1, done) = all_sets(r, phi, succs, k - 1);
        let s = succs[k - 1];
        assert(s < phi.len());
        assert forall|i: int| 0 <= i < phi[s as int].len() implies ok(
            shadow_spec((#[trigger] phi[s as int][i]).0, s as nat),
        ) by {}
        lemma_sets_for_reads(r1, phi[s as int], s as nat, ok, held);
        let (r2, more) = sets_for(r1, phi[s as int], s as nat);
        lemma_keeps_on(r.undefined, r1.undefined, r2.undefined, held);
        lemma_names_kept(done, ok, r1.undefined, r2.undefined, held);
        let out = done + more;
        assert forall|x: int, j: int|
            0 <= x < out.len() && 0 <= j < out[x].arg_list().len() implies ok(
            #[trigger] out[x].arg_list()[j],
        ) || has_key(r2.undefined, out[x].arg_list()[j]) by {
            if x < done.len() {
                assert(out[x] == done[x]);
                assert(ok(done[x].arg_list()[j]) || has_key(r2.undefined, done[x].arg_list()[j]));
            } else {
                let y = x - done.len();
                assert(out[x] == more[y]);
                assert(ok(more[y].arg_list()[j]) || has_key(r2.undefined, more[y].arg_list()[j]));
            }
        }
    } else {
        assert forall|nm: Seq<char>| #[trigger] has_key(r.undefined, nm) implies has_key(
            r.undefined,
            nm,
        ) by {}
    }
}

/// The merge readers of a block read nothing, write the names of the
/// readers, and leave the stacks in order.
pub proof fn lemma_enter_reads(
    stack: Map<Seq<char>, Seq<Seq<char>>>,
    phis: Seq<(Seq<char>, Type)>,
    b: nat,
    ok: spec_fn(Seq<char>) -> bool,
    held: Seq<Seq<char>>,
)
    requires
        tops_ok(stack, ok),
        holds_all(stack, held),
        forall|k: int| 0 <= k < phis.len() ==> ok(shadow_spec((#[trigger] phis[k]).0, b)),
    ensures
        tops_ok(enter(stack, phis, b).0, ok),
        holds_all(enter(stack, phis, b).0, held),
        forall|k: int|
            0 <= k < enter(stack, phis, b).1.len() ==> (#[trigger] enter(
                stack,
                phis,
                b,
            ).1[k]).arg_list().len() == 0,
        forall|k: int|
            0 <= k < phis.len() ==> instr_dests(enter(stack, phis, b).1).contains(
                shadow_spec((#[trigger] phis[k]).0, b),
            ),
    decreases phis.len(),
{
    if phis.len() > 0 {
        let head = phis.drop_last();
        assert forall|k: int| 0 <= k < head.len() implies ok(
            shadow_spec((#[trigger] head[k]).0, b),
        ) by {
            assert(head[k] == phis[k]);
        }
        lemma_enter_reads(stack, head, b, ok, held);
        let (s, g) = enter(stack, head, b);
        let (dst, ty) = phis.last();
        assert(phis[phis.len() - 1].0 == dst);
        lemma_pushed_tops(s, dst, shadow_spec(dst, b), ok, held);
        let one = seq![get_instr(dst, ty, b)];
        let all = one + g;
        lemma_dests_concat(one, g);
        lemma_dests_one(get_instr(dst, ty, b));
        let d1 = instr_dests(one);
        let d2 = instr_dests(g);
        assert forall|k: int| 0 <= k < all.len() implies (#[trigger] all[k]).arg_list().len()
            == 0 by {
            if k > 0 {
                assert(all[k] == g[k - 1]);
            }
        }
        assert forall|k: int| 0 <= k < phis.len() implies (d1 + d2).contains(
            shadow_spec((#[trigger] phis[k]).0, b),
        ) by {
            if k == phis.len() - 1 {
                assert((d1 + d2)[0] == shadow_spec(dst, b));
            } else {
                assert(head[k] == phis[k]);
                let nm = shadow_spec(head[k].0, b);
                assert(d2.contains(nm));
                let j = choose|j: int| 0 <= j < d2.len() && d2[j] == nm;
                assert((d1 + d2)[d1.len() + j] == nm);
            }
        }
    }
}

/// Whether a name is that of a merge reader of some block.
pub open spec fn reader_at(ctx: SsaCtx, nm: Seq<char>) -> bool {
    exists|b: int, k: int|
        0 <= b < ctx.phi.len() && 0 <= k < ctx.phi[b].len() && nm == shadow_spec(
            (#[trigger] ctx.phi[b][k]).0,
            b as nat,
        )
}

/// Whether a name is the one made up for an instruction of some block
/// that writes.
pub open spec fn written_at(orig: Seq<BlockView>, nm: Seq<char>) -> bool {
    exists|b: int, i: int|
        0 <= b < orig.len() && 0 <= i < orig[b].all().len() && (#[trigger] orig[b].all()[i]).dest().is_some()
            && nm == unique_spec(orig[b].all()[i].dest().unwrap(), b as nat, i as nat)
}

/// The names that the construction gives a definition: the arguments of
/// the function, the names of the merge readers, and the names made up for
/// the instructions that write.
pub open spec fn scheduled(ctx: SsaCtx, orig: Seq<BlockView>, held: Seq<Seq<char>>) -> spec_fn(
    Seq<char>,
) -> bool {
    |nm: Seq<char>| held.contains(nm) || reader_at(ctx, nm) || written_at(orig, nm)
}

/// Whether a block that the walk has been at is done: it reads names that
/// have a definition or are recorded as undefined, and writes the names of
/// its merge readers and the names made up for its instructions.
pub open spec fn block_done(
    ctx: SsaCtx,
    orig: Seq<BlockView>,
    held: Seq<Seq<char>>,
    und: Seq<(Seq<char>, Type)>,
    blk: BlockView,
    b: int,
) -> bool {
    &&& names_ok(blk.all(), scheduled(ctx, orig, held), und)
    &&& forall|k: int|
        0 <= k < ctx.phi[b].len() ==> instr_dests(blk.all()).contains(
            shadow_spec((#[trigger] ctx.phi[b][k]).0, b as nat),
        )
    &&& forall|i: int|
        0 <= i < orig[b].all().len() && (#[trigger] orig[b].all()[i]).dest().is_some()
            ==> instr_dests(blk.all()).contains(
            unique_spec(orig[b].all()[i].dest().unwrap(), b as nat, i as nat),
        )
}

/// What holds of the walk at every step: the names that hold the values
/// of the variables have definitions, every argument has such a name, no
/// argument is recorded as undefined, the blocks that the walk has not
/// been at are as they were, and the others are done.
pub open spec fn settled(ctx: SsaCtx, orig: Seq<BlockView>, held: Seq<Seq<char>>, st: SsaState) -> bool {
    &&& st.blocks.len() == orig.len()
    &&& orig.len() == ctx.phi.len()
    &&& ctx.succs.len() == ctx.phi.len()
    &&& ctx.phi.len() <= usize::MAX
    &&& forall|b: int, k: int|
        0 <= b < ctx.succs.len() && 0 <= k < ctx.succs[b].len() ==> (#[trigger] ctx.succs[b][k])
            < ctx.phi.len()
    &&& tops_ok(st.r.stack, scheduled(ctx, orig, held))
    &&& holds_all(st.r.stack, held)
    &&& forall|nm: Seq<char>| #[trigger] has_key(st.r.undefined, nm) ==> !held.contains(nm)
    &&& forall|b: int|
        0 <= b < orig.len() && !st.visited.contains(b as usize) ==> (#[trigger] st.blocks[b])
            == orig[b]
    &&& forall|b: int|
        0 <= b < orig.len() && st.visited.contains(b as usize) ==> block_done(
            ctx,
            orig,
            held,
            st.r.undefined,
            #[trigger] st.blocks[b],
            b,
        )
}

/// Renaming a block that the walk has not been at keeps what holds of the
/// walk, and lets the record of undefined variables grow.
pub proof fn lemma_visit_settled(
    ctx: SsaCtx,
    orig: Seq<BlockView>,
    held: Seq<Seq<char>>,
    st: SsaState,
    b: int,
)
    requires
        settled(ctx, orig, held, st),
        0 <= b < orig.len(),
        !st.visited.contains(b as usize),
        visit(ctx, st, b).is_ok(),
    ensures
        settled(ctx, orig, held, visit(ctx, st, b).unwrap()),
        keeps(st.r.undefined, visit(ctx, st, b).unwrap().r.undefined, held),
{
    let ok = scheduled(ctx, orig, held);
    let st1 = visit(ctx, st, b).unwrap();
    let blk = st.blocks[b];
    assert(blk == orig[b]);
    let all = blk.all();
    let n = all.len() as int;
    let phis = ctx.phi[b];
    assert forall|k: int| 0 <= k < phis.len() implies ok(
        shadow_spec((#[trigger] phis[k]).0, b as nat),
    ) by {
        assert(reader_at(ctx, shadow_spec(ctx.phi[b][k].0, b as nat)));
    }
    assert forall|s: int, i: int| 0 <= s < ctx.phi.len() && 0 <= i < ctx.phi[s].len() implies ok(
        shadow_spec((#[trigger] ctx.phi[s][i]).0, s as nat),
    ) by {
        assert(reader_at(ctx, shadow_spec(ctx.phi[s][i].0, s as nat)));
    }
    assert forall|k: int| 0 <= k < n && (#[trigger] all[k]).dest().is_some() implies ok(
        unique_spec(all[k].dest().unwrap(), b as nat, k as nat),
    ) by {
        assert(orig[b].all()[k].dest().is_some());
        assert(written_at(orig, unique_spec(all[k].dest().unwrap(), b as nat, k as nat)));
    }
    lemma_enter_reads(st.r.stack, phis, b as nat, ok, held);
    let (s1, gets) = enter(st.r.stack, phis, b as nat);
    let start = Renaming { stack: s1, ..st.r };
    lemma_rename_all_reads(start, ctx.types, all, b as nat, n, ok, held);
    let (r2, renamed) = rename_all(start, ctx.types, all, b as nat, n).unwrap();
    let succs = ctx.succs[b];
    lemma_all_sets_reads(r2, ctx.phi, succs, succs.len() as int, ok, held);
    let (r3, sets) = all_sets(r2, ctx.phi, succs, succs.len() as int);
    lemma_keeps_on(st.r.undefined, r2.undefined, r3.undefined, held);
    lemma_names_kept(renamed, ok, r2.undefined, r3.undefined, held);
    let body = rebuild(blk, renamed);
    let nb = BlockView { instrs: gets + body.instrs + sets, ..body };
    assert(st1.blocks[b] == nb);
    let out = nb.all();
    let g = gets.len() as int;
    let m = body.instrs.len() as int;
    // Every instruction of the block is a reader, a renamed instruction,
    // or a write to a reader.
    assert forall|k: int, j: int| 0 <= k < out.len() && 0 <= j < out[k].arg_list().len() implies ok(
        #[trigger] out[k].arg_list()[j],
    ) || has_key(r3.undefined, out[k].arg_list()[j]) by {
        if k < g {
            assert(out[k] == gets[k]);
        } else if k < g + m {
            assert(out[k] == renamed[k - g]);
            assert(ok(renamed[k - g].arg_list()[j]) || has_key(
                r3.undefined,
                renamed[k - g].arg_list()[j],
            ));
        } else if k < g + m + sets.len() {
            let y = k - g - m;
            assert(out[k] == sets[y]);
            assert(ok(sets[y].arg_list()[j]) || has_key(r3.undefined, sets[y].arg_list()[j]));
        } else {
            assert(out[k] == renamed[n - 1]);
            assert(ok(renamed[n - 1].arg_list()[j]) || has_key(
                r3.undefined,
                renamed[n - 1].arg_list()[j],
            ));
        }
    }
    assert forall|k: int| 0 <= k < phis.len() implies instr_dests(out).contains(
        shadow_spec((#[trigger] ctx.phi[b][k]).0, b as nat),
    ) by {
        let nm = shadow_spec(phis[k].0, b as nat);
        lemma_dests_member(gets, nm);
        let x = choose|x: int| 0 <= x < gets.len() && (#[trigger] gets[x]).dest() == Some(nm);
        assert(out[x] == gets[x]);
        lemma_written(out, x);
    }
    assert forall|i: int|
        0 <= i < orig[b].all().len() && (#[trigger] orig[b].all()[i]).dest().is_some() implies instr_dests(
        out,
    ).contains(unique_spec(orig[b].all()[i].dest().unwrap(), b as nat, i as nat)) by {
        let x = if i < m {
            g + i
        } else {
            out.len() - 1
        };
        assert(out[x] == renamed[i]);
        assert(renamed[i].dest() == Some(
            unique_spec(all[i].dest().unwrap(), b as nat, i as nat),
        ));
        lemma_written(out, x);
    }
    assert(block_done(ctx, orig, held, r3.undefined, nb, b));
    assert forall|x: int| 0 <= x < orig.len() && st1.visited.contains(x as usize) implies block_done(
        ctx,
        orig,
        held,
        st1.r.undefined,
        #[trigger] st1.blocks[x],
        x,
    ) by {
        if x != b {
            assert(st1.blocks[x] == st.blocks[x]);
            assert(st.visited.contains(x as usize));
            lemma_names_kept(st.blocks[x].all(), ok, st.r.undefined, r3.undefined, held);
        }
    }
    assert forall|x: int| 0 <= x < orig.len() && !st1.visited.contains(x as usize) implies (
    #[trigger] st1.blocks[x]) == orig[x] by {
        assert(st1.blocks[x] == st.blocks[x]);
    }
}

/// The walk from a block keeps what holds of it, and lets the record of
/// undefined variables grow.
pub proof fn lemma_walk_settled(
    ctx: SsaCtx,
    orig: Seq<BlockView>,
    held: Seq<Seq<char>>,
    st: SsaState,
    b: int,
    fuel: nat,
)
    requires
        settled(ctx, orig, held, st),
        0 <= b < orig.len(),
        walk(ctx, st, b, fuel).is_ok(),
    ensures
        settled(ctx, orig, held, walk(ctx, st, b, fuel).unwrap()),
        keeps(st.r.undefined, walk(ctx, st, b, fuel).unwrap().r.undefined, held),
    decreases fuel, ctx.phi.len() + 1,
{
    if !st.visited.contains(b as usize) {
        lemma_visit_settled(ctx, orig, held, st, b);
        let st1 = visit(ctx, st, b).unwrap();
        lemma_children_settled(ctx, orig, held, st1, b, 0, fuel);
        let st2 = children(ctx, st1, b, 0, fuel).unwrap();
        lemma_keeps_on(st.r.undefined, st1.r.undefined, st2.r.undefined, held);
    } else {
        assert forall|nm: Seq<char>| #[trigger] has_key(st.r.undefined, nm) implies has_key(
            st.r.undefined,
            nm,
        ) by {}
    }
}

/// The walk through the blocks that a block dominates immediately keeps
/// what holds of it, and lets the record of undefined variables grow.
pub proof fn lemma_children_settled(
    ctx: SsaCtx,
    orig: Seq<BlockView>,
    held: Seq<Seq<char>>,
    st: SsaState,
    b: int,
    c: int,
    fuel: nat,
)
    requires
        settled(ctx, orig, held, st),
        children(ctx, st, b, c, fuel).is_ok(),
    ensures
        settled(ctx, orig, held, children(ctx, st, b, c, fuel).unwrap()),
        keeps(st.r.undefined, children(ctx, st, b, c, fuel).unwrap().r.undefined, held),
    decreases fuel, ctx.phi.len() - c,
{
    if c < 0 || c >= ctx.phi.len() || fuel == 0 {
        assert forall|nm: Seq<char>| #[trigger] has_key(st.r.undefined, nm) implies has_key(
            st.r.undefined,
            nm,
        ) by {}
    } else if ctx.idom[c] == Some(b as usize) {
        lemma_walk_settled(ctx, orig, held, st, c, (fuel - 1) as nat);
        let st1 = walk(ctx, st, c, (fuel - 1) as nat).unwrap();
        lemma_children_settled(ctx, orig, held, st1, b, c + 1, fuel);
        let st2 = children(ctx, st1, b, c + 1, fuel).unwrap();
        lemma_keeps_on(st.r.undefined, st1.r.undefined, st2.r.undefined, held);
    } else {
        lemma_children_settled(ctx, orig, held, st, b, c + 1, fuel);
    }
}

/// Whether some line reads a name.
pub open spec fn code_reads(codes: Seq<CodeView>, nm: Seq<char>) -> bool {
    exists|k: int, j: int|
        0 <= k < codes.len() && 0 <= j < code_args(codes[k]).len() && #[trigger] code_args(
            codes[k],
        )[j] == nm
}

/// Every instruction among the lines of some blocks is an instruction of
/// one of the blocks.
pub proof fn lemma_flatten_line(blocks: Seq<BlockView>, k: int) -> (r: (int, int))
    requires
        0 <= k < flatten_blocks(blocks).len(),
        flatten_blocks(blocks)[k] is Instruction,
    ensures
        0 <= r.0 < blocks.len(),
        0 <= r.1 < blocks[r.0].all().len(),
        flatten_blocks(blocks)[k] == CodeView::Instruction(blocks[r.0].all()[r.1]),
    decreases blocks.len(),
{
    let head = blocks.drop_last();
    let x = flatten_blocks(head);
    let last = blocks.last();
    if k < x.len() {
        let r = lemma_flatten_line(head, k);
        assert(head[r.0] == blocks[r.0]);
        r
    } else {
        let y = last.flatten();
        let t = k - x.len();
        assert(flatten_blocks(blocks)[k] == y[t]);
        let lines = last.all().map_values(|i: InstrView| CodeView::Instruction(i));
        if last.label.is_some() {
            assert(t > 0);
            assert(y[t] == lines[t - 1]);
            (blocks.len() - 1, t - 1)
        } else {
            assert(y[t] == lines[t]);
            (blocks.len() - 1, t)
        }
    }
}

/// The seeds write every variable that is recorded as undefined.
pub proof fn lemma_seeds_key(und: Seq<(Seq<char>, Type)>, nm: Seq<char>)
    requires
        has_key(und, nm),
    ensures
        exists|k: int| 0 <= k < seeds(und).len() && (#[trigger] seeds(und)[k]).dest() == Some(nm),
        forall|k: int| 0 <= k < seeds(und).len() ==> (#[trigger] seeds(und)[k]).arg_list().len() == 0,
    decreases und.len(),
{
    let head = und.drop_last();
    let one = seq![undef_instr(und.last().0, und.last().1)];
    let all = seeds(und);
    lemma_seeds_plain(und);
    if und.last().0 == nm {
        assert(all[0].dest() == Some(nm));
    } else {
        let i = choose|i: int| 0 <= i < und.len() && (#[trigger] und[i]).0 == nm;
        assert(head[i].0 == nm);
        lemma_seeds_key(head, nm);
        let k = choose|k: int|
            0 <= k < seeds(head).len() && (#[trigger] seeds(head)[k]).dest() == Some(nm);
        assert(all[k + 1] == seeds(head)[k]);
    }
}

/// The seeds read nothing.
pub proof fn lemma_seeds_plain(und: Seq<(Seq<char>, Type)>)
    ensures
        forall|k: int| 0 <= k < seeds(und).len() ==> (#[trigger] seeds(und)[k]).arg_list().len() == 0,
    decreases und.len(),
{
    if und.len() > 0 {
        lemma_seeds_plain(und.drop_last());
        let all = seeds(und);
        assert forall|k: int| 0 <= k < all.len() implies (#[trigger] all[k]).arg_list().len()
            == 0 by {
            if k > 0 {
                assert(all[k] == seeds(und.drop_last())[k - 1]);
            }
        }
    }
}

/// What a block wrote when the walk ended is written by the lines of the
/// blocks as the construction leaves them.
pub proof fn lemma_finished_writes(st: SsaState, b: int, nm: Seq<char>)
    requires
        0 <= b < st.blocks.len(),
        instr_dests(st.blocks[b].all()).contains(nm),
    ensures
        dests(flatten_blocks(finished(st))).contains(nm),
{
    let last = finished(st);
    lemma_dests_member(st.blocks[b].all(), nm);
    let x = choose|x: int|
        0 <= x < st.blocks[b].all().len() && (#[trigger] st.blocks[b].all()[x]).dest() == Some(nm);
    if b == 0 {
        let sd = seeds(st.r.undefined);
        assert(last[0].all() =~= sd + st.blocks[0].all());
        assert(last[0].all()[sd.len() + x] == st.blocks[0].all()[x]);
        assert(writes(last[0], nm));
    } else {
        assert(last[b].all() == st.blocks[b].all());
        assert(writes(last[b], nm));
    }
    lemma_block_written(last, b, nm);
}

/// Whether a run of instructions reads a name.
pub open spec fn instr_reads(s: Seq<InstrView>, nm: Seq<char>) -> bool {
    exists|k: int, j: int|
        0 <= k < s.len() && 0 <= j < s[k].arg_list().len() && #[trigger] s[k].arg_list()[j] == nm
}

/// Whether a name is that of a merge reader of block `b`.
pub open spec fn reader_of(ctx: SsaCtx, b: int, nm: Seq<char>) -> bool {
    exists|k: int|
        0 <= k < ctx.phi[b].len() && nm == shadow_spec((#[trigger] ctx.phi[b][k]).0, b as nat)
}

/// Whether a name is the one made up for an instruction of block `b` that
/// writes.
pub open spec fn write_of(orig: Seq<BlockView>, b: int, nm: Seq<char>) -> bool {
    exists|i: int|
        0 <= i < orig[b].all().len() && (#[trigger] orig[b].all()[i]).dest().is_some() && nm
            == unique_spec(orig[b].all()[i].dest().unwrap(), b as nat, i as nat)
}

/// Whether a name is tied to block `j`: the block reads it, or it is made
/// up for the block.
pub open spec fn tied(ctx: SsaCtx, orig: Seq<BlockView>, j: int, nm: Seq<char>) -> bool {
    instr_reads(orig[j].all(), nm) || reader_of(ctx, j, nm) || write_of(orig, j, nm)
}

/// Whether a name is tied to a block that the walk has not been at.
pub open spec fn stray_name(ctx: SsaCtx, orig: Seq<BlockView>, st: SsaState, nm: Seq<char>) -> bool {
    exists|j: int|
        0 <= j < orig.len() && !st.visited.contains(j as usize) && #[trigger] tied(
            ctx,
            orig,
            j,
            nm,
        )
}

/// Every name that a line of the result reads is one of the names `held`,
/// or is written in the result, or is tied to a block that the walk has
/// not been at.
pub proof fn lemma_walked_defined(
    ctx: SsaCtx,
    orig: Seq<BlockView>,
    held: Seq<Seq<char>>,
    st: SsaState,
    nm: Seq<char>,
)
    requires
        settled(ctx, orig, held, st),
        orig.len() > 0,
        st.visited.contains(0),
        code_reads(flatten_blocks(finished(st)), nm),
    ensures
        held.contains(nm) || dests(flatten_blocks(finished(st))).contains(nm) || stray_name(
            ctx,
            orig,
            st,
            nm,
        ),
{
    let last = finished(st);
    let codes = flatten_blocks(last);
    let (k, j) = choose|k: int, j: int|
        0 <= k < codes.len() && 0 <= j < code_args(codes[k]).len() && #[trigger] code_args(
            codes[k],
        )[j] == nm;
    let (b, x) = lemma_flatten_line(last, k);
    let i = last[b].all()[x];
    assert(i.arg_list()[j] == nm);
    let sd = seeds(st.r.undefined);
    lemma_seeds_plain(st.r.undefined);
    if !st.visited.contains(b as usize) {
        assert(st.blocks[b] == orig[b]);
        assert(last[b].all() == orig[b].all());
        assert(orig[b].all()[x].arg_list()[j] == nm);
        assert(instr_reads(orig[b].all(), nm));
        assert(tied(ctx, orig, b, nm));
        assert(stray_name(ctx, orig, st, nm));
    } else {
        // The instruction stood in the block when the walk ended.
        let y = if b == 0 {
            x - sd.len()
        } else {
            x
        };
        if b == 0 {
            assert(last[0].all() =~= sd + st.blocks[0].all());
            if x < sd.len() {
                assert(last[0].all()[x] == sd[x]);
            }
        } else {
            assert(last[b].all() == st.blocks[b].all());
        }
        assert(st.blocks[b].all()[y] == i);
        assert(block_done(ctx, orig, held, st.r.undefined, st.blocks[b], b));
        let ok = scheduled(ctx, orig, held);
        assert(ok(st.blocks[b].all()[y].arg_list()[j]) || has_key(
            st.r.undefined,
            st.blocks[b].all()[y].arg_list()[j],
        ));
        if has_key(st.r.undefined, nm) {
            lemma_seeds_key(st.r.undefined, nm);
            let t = choose|t: int| 0 <= t < sd.len() && (#[trigger] sd[t]).dest() == Some(nm);
            assert(last[0].all() =~= sd + st.blocks[0].all());
            assert(last[0].all()[t] == sd[t]);
            assert(writes(last[0], nm));
            lemma_block_written(last, 0, nm);
        } else if reader_at(ctx, nm) {
            let (c, t) = choose|c: int, t: int|
                0 <= c < ctx.phi.len() && 0 <= t < ctx.phi[c].len() && nm == shadow_spec(
                    (#[trigger] ctx.phi[c][t]).0,
                    c as nat,
                );
            if st.visited.contains(c as usize) {
                assert(block_done(ctx, orig, held, st.r.undefined, st.blocks[c], c));
                lemma_finished_writes(st, c, nm);
            } else {
                assert(reader_of(ctx, c, nm));
                assert(tied(ctx, orig, c, nm));
                assert(stray_name(ctx, orig, st, nm));
            }
        } else if written_at(orig, nm) {
            let (c, t) = choose|c: int, t: int|
                0 <= c < orig.len() && 0 <= t < orig[c].all().len() && (
                #[trigger] orig[c].all()[t]).dest().is_some() && nm == unique_spec(
                    orig[c].all()[t].dest().unwrap(),
                    c as nat,
                    t as nat,
                );
            if st.visited.contains(c as usize) {
                assert(block_done(ctx, orig, held, st.r.undefined, st.blocks[c], c));
                lemma_finished_writes(st, c, nm);
            } else {
                assert(write_of(orig, c, nm));
                assert(tied(ctx, orig, c, nm));
                assert(stray_name(ctx, orig, st, nm));
            }
        }
    }
}

/// The stacks at the start hold each argument under its own name, and
/// nothing else.
pub proof fn lemma_initial(args: Seq<ArgView>, v: Seq<char>)
    ensures
        top(initial(args), v) == if arg_names(args).contains(v) {
            Some(v)
        } else {
            None::<Seq<char>>
        },
    decreases args.len(),
{
    let names = arg_names(args);
    if args.len() > 0 {
        lemma_initial(args.drop_last(), v);
        let head = arg_names(args.drop_last());
        assert(head =~= names.drop_last());
        assert(names.last() == args.last().name);
        if names.contains(v) {
            let i = choose|i: int| 0 <= i < names.len() && names[i] == v;
            if i < names.len() - 1 {
                assert(head[i] == v);
            }
        }
        if head.contains(v) {
            let i = choose|i: int| 0 <= i < head.len() && head[i] == v;
            assert(names[i] == v);
        }
        if args.last().name == v {
            assert(names[names.len() - 1] == v);
        }
    }
}

/// What holds of the walk holds at its start.
pub proof fn lemma_start_settled(
    f: FunctionView,
    tree: &DominatorTree,
    phi: Seq<Seq<(Seq<char>, Type)>>,
)
    requires
        tree.wf(),
        tree.cfg.func@.blocks == prepared(f),
        phi.len() == tree.cfg.size(),
    ensures
        settled(
            ctx_of(tree, phi, types_of(f.instrs)),
            prepared(f),
            arg_names(f.args),
            start_state(f),
        ),
{
    let types = types_of(f.instrs);
    let ctx = ctx_of(tree, phi, types);
    let orig = prepared(f);
    let held = arg_names(f.args);
    let start = start_state(f);
    assert forall|b: int, k: int|
        0 <= b < ctx.succs.len() && 0 <= k < ctx.succs[b].len() implies (
    #[trigger] ctx.succs[b][k]) < ctx.phi.len() by {
        lemma_neighbours_in_range(&tree.cfg, b as usize);
    }
    let ok = scheduled(ctx, orig, held);
    assert forall|v: Seq<char>| (#[trigger] top(start.r.stack, v)).is_some() implies ok(
        top(start.r.stack, v).unwrap(),
    ) by {
        lemma_initial(f.args, v);
    }
    assert forall|a: Seq<char>| held.contains(a) implies (#[trigger] top(
        start.r.stack,
        a,
    )).is_some() by {
        lemma_initial(f.args, a);
    }
    assert forall|nm: Seq<char>| #[trigger] has_key(start.r.undefined, nm) implies !held.contains(
        nm,
    ) by {
        if has_key(start.r.undefined, nm) {
            let i = choose|i: int|
                0 <= i < start.r.undefined.len() && (#[trigger] start.r.undefined[i]).0 == nm;
        }
    }
}

/// Every name that an instruction of the SSA form reads is an argument of
/// the function, or is written in the SSA form, or is tied to a block that
/// the walk has not been at.
pub proof fn lemma_reads_defined(
    f: FunctionView,
    tree: &DominatorTree,
    phi: Seq<Seq<(Seq<char>, Type)>>,
    r: FunctionView,
    nm: Seq<char>,
)
    requires
        tree.wf(),
        tree.cfg.func@.blocks == prepared(f),
        prepared(f).len() > 0,
        phi.len() == tree.cfg.size(),
        ssa_form(f, tree, phi) == Ok::<FunctionView, PassError>(r),
        code_reads(r.instrs, nm),
    ensures
        arg_names(f.args).contains(nm) || dests(r.instrs).contains(nm) || stray_name(
            ctx_of(tree, phi, types_of(f.instrs)),
            prepared(f),
            end_state(f, tree, phi),
            nm,
        ),
{
    let ctx = ctx_of(tree, phi, types_of(f.instrs));
    let orig = prepared(f);
    let held = arg_names(f.args);
    let n = orig.len();
    let start = start_state(f);
    lemma_start_settled(f, tree, phi);
    let st = end_state(f, tree, phi);
    lemma_walk_settled(ctx, orig, held, start, 0, n);
    lemma_walk_covers(ctx, start, 0, n);
    assert(r.instrs == flatten_blocks(finished(st)));
    lemma_walked_defined(ctx, orig, held, st, nm);
}

/// Every name that an instruction of what `to_ssa` returns reads is an
/// argument of the function or is written in what it returns, unless it
/// is tied to a block that the walk has not been at.
pub proof fn lemma_to_ssa_reads_defined(f: FunctionView, r: FunctionView, nm: Seq<char>)
    requires
        forall|tree: DominatorTree|
            #[trigger] tree.wf() && tree.cfg.func@.blocks == prepared(f) ==> !stray_name(
                ctx_of(&tree, merge_readers(&tree), types_of(f.instrs)),
                prepared(f),
                end_state(f, &tree, merge_readers(&tree)),
                nm,
            ),
        to_ssa_rel(f, Ok(r)),
        code_reads(r.instrs, nm),
    ensures
        arg_names(f.args).contains(nm) || dests(r.instrs).contains(nm),
{
    let out = Ok::<FunctionView, PassError>(r);
    let g = BBFunctionView { blocks: prepared(f), ..block_form(f) };
    let cfg = choose|cfg: CFG|
        #![trigger outcome(f, &cfg, out)]
        cfg.wf() && !cfg.reversed && cfg.func@ == g && outcome(f, &cfg, out);
    assert(walked(f, &cfg, out));
    let tree = choose|tree: DominatorTree|
        #![trigger merge_readers(&tree)]
        tree.wf() && tree.cfg == cfg && closed(merge_readers(&tree), &tree) && exact(
            merge_readers(&tree),
            &tree,
        ) && single(merge_readers(&tree)) && ssa_form(f, &tree, merge_readers(&tree)) == out;
    lemma_reads_defined(f, &tree, merge_readers(&tree), r, nm);
}

/// Every name that an instruction of what `to_ssa` returns reads is an
/// argument of the function or is written in what it returns, if every
/// block of the prepared function can be reached from a block that nothing
/// leads to.
pub proof fn lemma_to_ssa_reads_defined_plain(f: FunctionView, r: FunctionView, nm: Seq<char>)
    requires
        forall|cfg: CFG|
            #[trigger] cfg.wf() && !cfg.reversed && cfg.func@.blocks == prepared(f) ==> connected(
                &cfg,
            ),
        to_ssa_rel(f, Ok(r)),
        code_reads(r.instrs, nm),
    ensures
        arg_names(f.args).contains(nm) || dests(r.instrs).contains(nm),
{
    let out = Ok::<FunctionView, PassError>(r);
    let g = BBFunctionView { blocks: prepared(f), ..block_form(f) };
    let cfg = choose|cfg: CFG|
        #![trigger outcome(f, &cfg, out)]
        cfg.wf() && !cfg.reversed && cfg.func@ == g && outcome(f, &cfg, out);
    assert(walked(f, &cfg, out));
    let tree = choose|tree: DominatorTree|
        #![trigger merge_readers(&tree)]
        tree.wf() && tree.cfg == cfg && closed(merge_readers(&tree), &tree) && exact(
            merge_readers(&tree),
            &tree,
        ) && single(merge_readers(&tree)) && ssa_form(f, &tree, merge_readers(&tree)) == out;
    assert(prepared(f)[0].label.is_none());
    lemma_unlabelled_entry(&cfg);
    lemma_whole_rooted(&tree);
    let phi = merge_readers(&tree);
    let ctx = ctx_of(&tree, phi, types_of(f.instrs));
    let st = end_state(f, &tree, phi);
    let n = prepared(f).len();
    assert(ctx.idom =~= Seq::new(tree.cfg.size(), |i: int| tree.immediate_doms@[i]));
    lemma_walk_covers(ctx, start_state(f), 0, n);
    assert forall|b: usize| b < n implies st.visited.contains(b) by {
        assert(hangs(ctx.idom, b as int));
        let k = choose|k: nat| #[trigger] under(ctx.idom, b as int, k);
        lemma_under_visited(ctx, st.visited, b as int, k);
    }
    lemma_reads_defined(f, &tree, phi, r, nm);
    if stray_name(ctx, prepared(f), st, nm) {
        let j = choose|j: int|
            0 <= j < prepared(f).len() && !st.visited.contains(j as usize) && #[trigger] tied(
                ctx,
                prepared(f),
                j,
                nm,
            );
        assert(st.visited.contains(j as usize));
    }
}

/// A name that the lines of some blocks write is written by one of the
/// blocks.
pub proof fn lemma_dests_block(blocks: Seq<BlockView>, v: Seq<char>) -> (b: int)
    requires
        dests(flatten_blocks(blocks)).contains(v),
    ensures
        0 <= b < blocks.len(),
        instr_dests(blocks[b].all()).contains(v),
    decreases blocks.len(),
{
    if blocks.len() == 0 {
        let d = dests(flatten_blocks(blocks));
        let j = choose|j: int| 0 <= j < d.len() && d[j] == v;
        0
    } else {
        let head = blocks.drop_last();
        lemma_code_dests_concat(flatten_blocks(head), blocks.last().flatten());
        lemma_flatten_dests(blocks.last());
        let x = dests(flatten_blocks(head));
        let y = instr_dests(blocks.last().all());
        let j = choose|j: int| 0 <= j < (x + y).len() && (x + y)[j] == v;
        if j < x.len() {
            assert(x[j] == v);
            let b = lemma_dests_block(head, v);
            assert(head[b] == blocks[b]);
            b
        } else {
            assert(y[j - x.len()] == v);
            blocks.len() - 1
        }
    }
}

/// Whether an argument keeps clear of the names that the blocks write at
/// the end of a walk: it has not the shape of a name made up at a block
/// that the walk has been at, and no block that the walk has not been at
/// writes it.
pub open spec fn argument_clear(orig: Seq<BlockView>, st: SsaState, a: Seq<char>) -> bool {
    &&& forall|b: int|
        0 <= b < orig.len() && st.visited.contains(b as usize) ==> !#[trigger] name_at(
            b as nat,
            a,
        )
    &&& forall|j: int|
        0 <= j < orig.len() && !st.visited.contains(j as usize) ==> !(#[trigger] instr_dests(
            orig[j].all(),
        )).contains(a)
}

/// No instruction of the SSA form writes an argument of the function that
/// keeps clear of the names that the blocks write.
pub proof fn lemma_arguments_not_written(
    f: FunctionView,
    tree: &DominatorTree,
    phi: Seq<Seq<(Seq<char>, Type)>>,
    r: FunctionView,
    a: Seq<char>,
)
    requires
        tree.wf(),
        tree.cfg.func@.blocks == prepared(f),
        prepared(f).len() > 0,
        phi.len() == tree.cfg.size(),
        single(phi),
        ssa_form(f, tree, phi) == Ok::<FunctionView, PassError>(r),
        arg_names(f.args).contains(a),
        argument_clear(prepared(f), end_state(f, tree, phi), a),
    ensures
        !dests(r.instrs).contains(a),
{
    let ctx = ctx_of(tree, phi, types_of(f.instrs));
    let orig = prepared(f);
    let held = arg_names(f.args);
    let n = orig.len();
    let start = start_state(f);
    let st = end_state(f, tree, phi);
    lemma_ctx_any(f, tree, phi);
    lemma_start_inv(f, tree, phi, any_name());
    lemma_walk_inv(ctx, any_name(), start, 0, n);
    lemma_start_settled(f, tree, phi);
    lemma_walk_settled(ctx, orig, held, start, 0, n);
    lemma_walk_covers(ctx, start, 0, n);
    let last = finished(st);
    assert(r.instrs == flatten_blocks(last));
    if dests(r.instrs).contains(a) {
        let b = lemma_dests_block(last, a);
        let sd = seeds(st.r.undefined);
        if st.visited.contains(b as usize) {
            assert(renamed_ok(st.blocks[b].all(), b as nat));
            if b == 0 {
                assert(last[0].all() =~= sd + st.blocks[0].all());
                lemma_dests_concat(sd, st.blocks[0].all());
                lemma_seeds_dests(st.r.undefined);
                let x = instr_dests(sd);
                let y = instr_dests(st.blocks[0].all());
                let j = choose|j: int| 0 <= j < (x + y).len() && (x + y)[j] == a;
                if j < x.len() {
                    assert(has_key(st.r.undefined, x[j]));
                    assert(false);
                } else {
                    assert(y[j - x.len()] == a);
                }
            } else {
                assert(last[b].all() == st.blocks[b].all());
            }
            let y = instr_dests(st.blocks[b].all());
            let j = choose|j: int| 0 <= j < y.len() && y[j] == a;
            assert(name_at(b as nat, y[j]));
        } else {
            assert(st.blocks[b] == orig[b]);
            assert(last[b].all() == orig[b].all());
        }
    }
}

/// No instruction of what `to_ssa` returns writes an argument of the
/// function that keeps clear of the names that the blocks write.
pub proof fn lemma_to_ssa_arguments_not_written(f: FunctionView, r: FunctionView, a: Seq<char>)
    requires
        forall|tree: DominatorTree|
            #[trigger] tree.wf() && tree.cfg.func@.blocks == prepared(f) ==> argument_clear(
                prepared(f),
                end_state(f, &tree, merge_readers(&tree)),
                a,
            ),
        to_ssa_rel(f, Ok(r)),
        arg_names(f.args).contains(a),
    ensures
        !dests(r.instrs).contains(a),
{
    let out = Ok::<FunctionView, PassError>(r);
    let g = BBFunctionView { blocks: prepared(f), ..block_form(f) };
    let cfg = choose|cfg: CFG|
        #![trigger outcome(f, &cfg, out)]
        cfg.wf() && !cfg.reversed && cfg.func@ == g && outcome(f, &cfg, out);
    assert(walked(f, &cfg, out));
    let tree = choose|tree: DominatorTree|
        #![trigger merge_readers(&tree)]
        tree.wf() && tree.cfg == cfg && closed(merge_readers(&tree), &tree) && exact(
            merge_readers(&tree),
            &tree,
        ) && single(merge_readers(&tree)) && ssa_form(f, &tree, merge_readers(&tree)) == out;
    lemma_arguments_not_written(f, &tree, merge_readers(&tree), r, a);
}

/// Whether no argument of a function holds a dot.
pub open spec fn dotless_args(f: FunctionView) -> bool {
    forall|k: int| 0 <= k < f.args.len() ==> dotless((#[trigger] f.args[k]).name)
}

/// No instruction of what `to_ssa` returns writes an argument of the
/// function, if no argument holds a dot, and every block of the prepared
/// function can be reached from a block that nothing leads to.
pub proof fn lemma_to_ssa_arguments_not_written_plain(
    f: FunctionView,
    r: FunctionView,
    a: Seq<char>,
)
    requires
        dotless_args(f),
        forall|cfg: CFG|
            #[trigger] cfg.wf() && !cfg.reversed && cfg.func@.blocks == prepared(f) ==> connected(
                &cfg,
            ),
        to_ssa_rel(f, Ok(r)),
        arg_names(f.args).contains(a),
    ensures
        !dests(r.instrs).contains(a),
{
    let out = Ok::<FunctionView, PassError>(r);
    let g = BBFunctionView { blocks: prepared(f), ..block_form(f) };
    let cfg = choose|cfg: CFG|
        #![trigger outcome(f, &cfg, out)]
        cfg.wf() && !cfg.reversed && cfg.func@ == g && outcome(f, &cfg, out);
    assert(walked(f, &cfg, out));
    let tree = choose|tree: DominatorTree|
        #![trigger merge_readers(&tree)]
        tree.wf() && tree.cfg == cfg && closed(merge_readers(&tree), &tree) && exact(
            merge_readers(&tree),
            &tree,
        ) && single(merge_readers(&tree)) && ssa_form(f, &tree, merge_readers(&tree)) == out;
    assert(prepared(f)[0].label.is_none());
    lemma_unlabelled_entry(&cfg);
    lemma_whole_rooted(&tree);
    let phi = merge_readers(&tree);
    let ctx = ctx_of(&tree, phi, types_of(f.instrs));
    let st = end_state(f, &tree, phi);
    let n = prepared(f).len();
    assert(ctx.idom =~= Seq::new(tree.cfg.size(), |i: int| tree.immediate_doms@[i]));
    lemma_walk_covers(ctx, start_state(f), 0, n);
    assert forall|b: usize| b < n implies st.visited.contains(b) by {
        assert(hangs(ctx.idom, b as int));
        let k = choose|k: nat| #[trigger] under(ctx.idom, b as int, k);
        lemma_under_visited(ctx, st.visited, b as int, k);
    }
    let i = choose|i: int| 0 <= i < arg_names(f.args).len() && arg_names(f.args)[i] == a;
    assert(dotless(f.args[i].name));
    assert forall|b: int|
        0 <= b < prepared(f).len() && st.visited.contains(b as usize) implies !#[trigger] name_at(
        b as nat,
        a,
    ) by {
        if name_at(b as nat, a) {
            lemma_name_at_dotted(b as nat, a);
        }
    }
    lemma_arguments_not_written(f, &tree, phi, r, a);
}

} // verus!
