//! Division of a function body into metered blocks, by a walk over its
//! structured control frames.
use vstd::prelude::*;
use crate::instruction::Instruction;
use crate::rules::RuleSet;

verus! {

/// A run of instructions that, traps aside, executes entirely or not at all,
/// with the position of its first instruction and its total cost.
#[derive(Clone, Copy, Debug, PartialEq, Eq, Structural)]
pub struct MeteredBlock {
    pub start_pos: usize,
    pub cost: u64,
}

/// A structured control frame open during the analysis of a body.
#[derive(Clone, Copy)]
pub struct ControlBlock {
    /// The lowest stack index that a forward branch from inside this frame
    /// may target.
    pub lowest_forward_br_target: usize,
    /// The metered block now accumulating cost in this frame.
    pub active: MeteredBlock,
    pub is_loop: bool,
}

/// Charging `c` to the innermost frame's active block.
pub open spec fn walk_increment(st: Seq<ControlBlock>, c: u32) -> Option<Seq<ControlBlock>> {
    if st.len() == 0 {
        None
    } else {
        let top = st.last();
        if top.active.cost + c > u64::MAX {
            None
        } else {
            Some(
                st.update(
                    st.len() - 1,
                    ControlBlock {
                        lowest_forward_br_target: top.lowest_forward_br_target,
                        active: MeteredBlock {
                            start_pos: top.active.start_pos,
                            cost: (top.active.cost + c) as u64,
                        },
                        is_loop: top.is_loop,
                    },
                ),
            )
        }
    }
}

/// Ending the innermost frame's active block at `cursor`: it is merged into
/// the enclosing frame's active block where both began at the same place,
/// else recorded at its start where it costs something; the next block
/// begins at `cursor + 1`.
pub open spec fn walk_finalize_block(st: Seq<ControlBlock>, b: Seq<u64>, cursor: int) -> Option<
    (Seq<ControlBlock>, Seq<u64>),
> {
    if st.len() == 0 {
        None
    } else {
        let n = st.len();
        let top = st.last();
        let closing = top.active;
        let st1 = st.update(
            n - 1,
            ControlBlock {
                lowest_forward_br_target: top.lowest_forward_br_target,
                active: MeteredBlock { start_pos: (cursor + 1) as usize, cost: 0 },
                is_loop: top.is_loop,
            },
        );
        if n > 1 && closing.start_pos == st[n - 2].active.start_pos {
            let prev = st[n - 2];
            if prev.active.cost + closing.cost > u64::MAX {
                None
            } else {
                Some(
                    (
                        st1.update(
                            n - 2,
                            ControlBlock {
                                lowest_forward_br_target: prev.lowest_forward_br_target,
                                active: MeteredBlock {
                                    start_pos: prev.active.start_pos,
                                    cost: (prev.active.cost + closing.cost) as u64,
                                },
                                is_loop: prev.is_loop,
                            },
                        ),
                        b,
                    ),
                )
            }
        } else if closing.cost > 0 {
            let p = closing.start_pos as int;
            if b[p] + closing.cost > u64::MAX {
                None
            } else {
                Some((st1, b.update(p, (b[p] + closing.cost) as u64)))
            }
        } else {
            Some((st1, b))
        }
    }
}

/// Recording that the innermost frame may branch to stack index `target`.
pub open spec fn walk_note(st: Seq<ControlBlock>, target: int) -> Option<Seq<ControlBlock>> {
    if target < 0 || target >= st.len() {
        None
    } else if st[target].is_loop {
        Some(st)
    } else {
        let top = st.last();
        Some(
            st.update(
                st.len() - 1,
                ControlBlock {
                    lowest_forward_br_target: if target < top.lowest_forward_br_target {
                        target as usize
                    } else {
                        top.lowest_forward_br_target
                    },
                    active: top.active,
                    is_loop: top.is_loop,
                },
            ),
        )
    }
}

/// Recording each of `targets` in turn.
pub open spec fn walk_note_all(st: Seq<ControlBlock>, targets: Seq<int>) -> Option<Seq<ControlBlock>>
    decreases targets.len(),
{
    if targets.len() == 0 {
        Some(st)
    } else {
        match walk_note(st, targets[0]) {
            None => None,
            Some(st2) => walk_note_all(st2, targets.subrange(1, targets.len() as int)),
        }
    }
}

/// The stack indices that branch depths `labels` target among `n` frames.
pub open spec fn walk_targets(n: int, labels: Seq<u32>) -> Option<Seq<int>> {
    if forall|i: int| 0 <= i < labels.len() ==> labels[i] < n {
        Some(labels.map_values(|l: u32| n - 1 - l))
    } else {
        None
    }
}

/// Opening a frame whose first block starts at `start`.
pub open spec fn walk_begin(st: Seq<ControlBlock>, start: usize, is_loop: bool) -> Seq<ControlBlock> {
    st.push(
        ControlBlock {
            lowest_forward_br_target: st.len() as usize,
            active: MeteredBlock { start_pos: start, cost: 0 },
            is_loop,
        },
    )
}

/// Closing the innermost frame at its `end` at `cursor`.
pub open spec fn walk_finalize_control(st: Seq<ControlBlock>, b: Seq<u64>, cursor: int) -> Option<
    (Seq<ControlBlock>, Seq<u64>),
> {
    match walk_finalize_block(st, b, cursor) {
        None => None,
        Some((st1, b1)) => {
            let closing = st1.last();
            let st2 = st1.drop_last();
            let n = st2.len();
            if n == 0 {
                Some((st2, b1))
            } else {
                let top = st2.last();
                let st3 = st2.update(
                    n - 1,
                    ControlBlock {
                        lowest_forward_br_target: if closing.lowest_forward_br_target
                            < top.lowest_forward_br_target {
                            closing.lowest_forward_br_target
                        } else {
                            top.lowest_forward_br_target
                        },
                        active: top.active,
                        is_loop: top.is_loop,
                    },
                );
                if closing.lowest_forward_br_target < n {
                    walk_finalize_block(st3, b1, cursor)
                } else {
                    Some((st3, b1))
                }
            }
        },
    }
}

/// Ending the block at a branch at `cursor` and recording its targets.
pub open spec fn walk_branch(st: Seq<ControlBlock>, b: Seq<u64>, cursor: int, targets: Seq<int>) -> Option<
    (Seq<ControlBlock>, Seq<u64>),
> {
    match walk_finalize_block(st, b, cursor) {
        None => None,
        Some((st2, b2)) => match walk_note_all(st2, targets) {
            None => None,
            Some(st3) => Some((st3, b2)),
        },
    }
}

/// One instruction `i` of cost `c` at `cursor`.
pub open spec fn walk_step(st: Seq<ControlBlock>, b: Seq<u64>, i: Instruction, c: u32, cursor: int) -> Option<
    (Seq<ControlBlock>, Seq<u64>),
> {
    match i {
        Instruction::End => walk_finalize_control(st, b, cursor),
        Instruction::Else => walk_finalize_block(st, b, cursor),
        _ => match walk_increment(st, c) {
            None => None,
            Some(st1) => match i {
                Instruction::Block(_) => Some((walk_begin(st1, st1.last().active.start_pos, false), b)),
                Instruction::If(_) => Some((walk_begin(st1, (cursor + 1) as usize, false), b)),
                Instruction::Loop(_) => Some((walk_begin(st1, (cursor + 1) as usize, true), b)),
                Instruction::Br(l) | Instruction::BrIf(l) => match walk_targets(st1.len() as int, seq![l]) {
                    None => None,
                    Some(ts) => walk_branch(st1, b, cursor, ts),
                },
                Instruction::BrTable(t, d) => match walk_targets(st1.len() as int, seq![d] + t@) {
                    None => None,
                    Some(ts) => walk_branch(st1, b, cursor, ts),
                },
                Instruction::Return => walk_branch(st1, b, cursor, seq![0int]),
                Instruction::Unreachable => walk_finalize_block(st1, b, cursor),
                _ => Some((st1, b)),
            },
        },
    }
}

/// The state after the first `k` instructions of `s`, from the function's
/// frame alone; `None` once an instruction is forbidden or the walk fails.
pub open spec fn walk(s: Seq<Instruction>, rules: RuleSet, k: nat) -> Option<(Seq<ControlBlock>, Seq<u64>)>
    decreases k,
{
    if k == 0 {
        Some(
            (
                seq![
                    ControlBlock {
                        lowest_forward_br_target: 0,
                        active: MeteredBlock { start_pos: 0, cost: 0 },
                        is_loop: false,
                    },
                ],
                Seq::new(s.len(), |i: int| 0u64),
            ),
        )
    } else {
        match walk(s, rules, (k - 1) as nat) {
            None => None,
            Some((st, b)) => if k - 1 < s.len() && !rules.forbids(s[k - 1]) {
                walk_step(st, b, s[k - 1], rules.cost(s[k - 1]), k - 1)
            } else {
                None
            },
        }
    }
}

/// The end of the walk over a body of `n` instructions: only the
/// function's frame may still be open, and its block is recorded.
pub open spec fn walk_finish(st: Seq<ControlBlock>, b: Seq<u64>, n: int) -> Option<Seq<u64>> {
    if st.len() > 1 {
        None
    } else if st.len() == 1 && st[0].active.cost > 0 {
        let p = st[0].active.start_pos as int;
        if p >= n || b[p] + st[0].active.cost > u64::MAX {
            None
        } else {
            Some(b.update(p, (b[p] + st[0].active.cost) as u64))
        }
    } else {
        Some(b)
    }
}

/// The blocks recorded at positions below `p`, by position.
pub open spec fn blocks_upto(b: Seq<u64>, p: nat) -> Seq<MeteredBlock>
    decreases p,
{
    if p == 0 {
        Seq::empty()
    } else {
        let q = (p - 1) as nat;
        if q < b.len() && b[q as int] > 0 {
            blocks_upto(b, q).push(MeteredBlock { start_pos: q as usize, cost: b[q as int] })
        } else {
            blocks_upto(b, q)
        }
    }
}

/// The metered blocks of body `s` under `rules`, by a walk over its control
/// frames; `None` where the body holds a forbidden instruction, is
/// malformed (an `end` or `else` with no open frame, a branch deeper than
/// the open frames, an instruction after the final `end`, a frame other
/// than the function's left open) or has a block whose cost does not fit in
/// 32 bits, the width of the charge that `env.gas` takes.
pub open spec fn metered_blocks(s: Seq<Instruction>, rules: RuleSet) -> Option<Seq<MeteredBlock>> {
    match walk(s, rules, s.len()) {
        None => None,
        Some((st, b)) => match walk_finish(st, b, s.len() as int) {
            None => None,
            Some(b2) => if forall|p: int| 0 <= p < b2.len() ==> b2[p] <= u32::MAX {
                Some(blocks_upto(b2, s.len()))
            } else {
                None
            },
        },
    }
}

/// What an instruction adds to the cost of its block: `end` and `else`
/// mark structure and are free.
pub open spec fn charge(rules: RuleSet, i: Instruction) -> int {
    match i {
        Instruction::End | Instruction::Else => 0,
        _ => rules.cost(i) as int,
    }
}

/// The static cost of a run of instructions.
pub open spec fn total_charge(rules: RuleSet, s: Seq<Instruction>) -> int
    decreases s.len(),
{
    if s.len() == 0 {
        0
    } else {
        total_charge(rules, s.drop_last()) + charge(rules, s.last())
    }
}

/// The total cost of a list of metered blocks.
pub open spec fn sum_costs(b: Seq<MeteredBlock>) -> int
    decreases b.len(),
{
    if b.len() == 0 {
        0
    } else {
        sum_costs(b.drop_last()) + b.last().cost
    }
}

/// Metered blocks of a body of `n` instructions: each starts inside the
/// body and costs something that fits in 32 bits, and they are ordered by
/// strictly increasing start.
pub open spec fn blocks_well_formed(b: Seq<MeteredBlock>, n: int) -> bool {
    &&& forall|k: int| 0 <= k < b.len() ==> b[k].start_pos < n && 0 < b[k].cost <= u32::MAX
    &&& forall|k: int, l: int| 0 <= k < l < b.len() ==> b[k].start_pos < b[l].start_pos
}

/// Whether control may reach the point after `i` from somewhere other than
/// the instruction before `i`, or `i` may not fall through to it: the points
/// where a metered block may begin.
pub open spec fn opens_block_after(i: Instruction) -> bool {
    match i {
        Instruction::If(_) | Instruction::Loop(_) | Instruction::Else | Instruction::End
        | Instruction::Br(_) | Instruction::BrIf(_) | Instruction::BrTable(_, _) | Instruction::Return
        | Instruction::Unreachable => true,
        _ => false,
    }
}

/// Position `p` of `s` is the first one or follows an instruction after
/// which a metered block may begin.
pub open spec fn may_start_block(s: Seq<Instruction>, p: int) -> bool {
    p == 0 || (0 < p <= s.len() && opens_block_after(s[p - 1]))
}

spec fn frames_ok(stack: Seq<ControlBlock>, s: Seq<Instruction>) -> bool {
    forall|j: int| 0 <= j < stack.len() ==> may_start_block(s, #[trigger] stack[j].active.start_pos as int)
}

spec fn buckets_ok(buckets: Seq<u64>, s: Seq<Instruction>) -> bool {
    forall|p: int| 0 <= p < buckets.len() && #[trigger] buckets[p] > 0 ==> may_start_block(s, p)
}

/// Whether control may leave the instruction before position `p` other than
/// by falling through to `p`, or reach `p` from elsewhere, so that the cost
/// from `p` on is owed only on some of the paths through that instruction.
pub open spec fn diverges_after(i: Instruction) -> bool {
    match i {
        Instruction::If(_) | Instruction::Loop(_) | Instruction::Else | Instruction::Br(_)
        | Instruction::BrIf(_) | Instruction::BrTable(_, _) | Instruction::Return
        | Instruction::Unreachable => true,
        _ => false,
    }
}

/// Position `p` of `s` follows a point of divergence and holds an
/// instruction with a cost: a metered block must start there.
pub open spec fn must_start_block(s: Seq<Instruction>, rules: RuleSet, p: int) -> bool {
    1 <= p < s.len() && diverges_after(s[p - 1]) && charge(rules, s[p]) > 0
}

spec fn cost_at(stack: Seq<ControlBlock>, p: int) -> int
    decreases stack.len(),
{
    if stack.len() == 0 {
        0
    } else {
        cost_at(stack.drop_last(), p) + if stack.last().active.start_pos == p {
            stack.last().active.cost as int
        } else {
            0
        }
    }
}

spec fn weight(stack: Seq<ControlBlock>, buckets: Seq<u64>, p: int) -> int {
    buckets[p] + cost_at(stack, p)
}

spec fn heavier(
    new_stack: Seq<ControlBlock>,
    new_buckets: Seq<u64>,
    old_stack: Seq<ControlBlock>,
    old_buckets: Seq<u64>,
) -> bool {
    forall|p: int|
        0 <= p < old_buckets.len() ==> #[trigger] weight(new_stack, new_buckets, p) >= weight(
            old_stack,
            old_buckets,
            p,
        )
}

proof fn lemma_cost_at_update(s: Seq<ControlBlock>, i: int, f: ControlBlock, p: int)
    requires
        0 <= i < s.len(),
    ensures
        cost_at(s.update(i, f), p) == cost_at(s, p) - (if s[i].active.start_pos == p {
            s[i].active.cost as int
        } else {
            0
        }) + (if f.active.start_pos == p {
            f.active.cost as int
        } else {
            0
        }),
    decreases s.len(),
{
    if i == s.len() - 1 {
        assert(s.update(i, f).drop_last() =~= s.drop_last());
    } else {
        assert(s.update(i, f).drop_last() =~= s.drop_last().update(i, f));
        lemma_cost_at_update(s.drop_last(), i, f, p);
    }
}

proof fn lemma_cost_at_same(a: Seq<ControlBlock>, b: Seq<ControlBlock>, p: int)
    requires
        a.len() == b.len(),
        forall|j: int| 0 <= j < a.len() ==> a[j].active == b[j].active,
    ensures
        cost_at(a, p) == cost_at(b, p),
    decreases a.len(),
{
    if a.len() > 0 {
        lemma_cost_at_same(a.drop_last(), b.drop_last(), p);
    }
}

proof fn lemma_cost_at_nonneg(s: Seq<ControlBlock>, p: int)
    ensures
        cost_at(s, p) >= 0,
    decreases s.len(),
{
    if s.len() > 0 {
        lemma_cost_at_nonneg(s.drop_last(), p);
    }
}

spec fn frame_sum(s: Seq<ControlBlock>) -> int
    decreases s.len(),
{
    if s.len() == 0 {
        0
    } else {
        frame_sum(s.drop_last()) + s.last().active.cost
    }
}

spec fn bucket_sum(s: Seq<u64>) -> int
    decreases s.len(),
{
    if s.len() == 0 {
        0
    } else {
        bucket_sum(s.drop_last()) + s.last()
    }
}

spec fn starts_within(s: Seq<ControlBlock>, cursor: int) -> bool {
    forall|j: int| 0 <= j < s.len() ==> s[j].active.start_pos <= cursor
}

proof fn lemma_frame_sum_update(s: Seq<ControlBlock>, i: int, f: ControlBlock)
    requires
        0 <= i < s.len(),
    ensures
        frame_sum(s.update(i, f)) == frame_sum(s) - s[i].active.cost + f.active.cost,
    decreases s.len(),
{
    if i == s.len() - 1 {
        assert(s.update(i, f).drop_last() =~= s.drop_last());
    } else {
        assert(s.update(i, f).drop_last() =~= s.drop_last().update(i, f));
        lemma_frame_sum_update(s.drop_last(), i, f);
    }
}

proof fn lemma_frame_sum_same(a: Seq<ControlBlock>, b: Seq<ControlBlock>)
    requires
        a.len() == b.len(),
        forall|j: int| 0 <= j < a.len() ==> a[j].active == b[j].active,
    ensures
        frame_sum(a) == frame_sum(b),
    decreases a.len(),
{
    if a.len() > 0 {
        lemma_frame_sum_same(a.drop_last(), b.drop_last());
    }
}

proof fn lemma_bucket_sum_update(s: Seq<u64>, i: int, v: u64)
    requires
        0 <= i < s.len(),
    ensures
        bucket_sum(s.update(i, v)) == bucket_sum(s) - s[i] + v,
    decreases s.len(),
{
    if i == s.len() - 1 {
        assert(s.update(i, v).drop_last() =~= s.drop_last());
    } else {
        assert(s.update(i, v).drop_last() =~= s.drop_last().update(i, v));
        lemma_bucket_sum_update(s.drop_last(), i, v);
    }
}

proof fn lemma_bucket_sum_zeros(n: nat)
    ensures
        bucket_sum(Seq::new(n, |i: int| 0u64)) == 0,
    decreases n,
{
    if n > 0 {
        assert(Seq::new(n, |i: int| 0u64).drop_last() =~= Seq::new((n - 1) as nat, |i: int| 0u64));
        lemma_bucket_sum_zeros((n - 1) as nat);
    }
}

/// Adds `c` to the cost of the innermost frame's active block.
fn increment(stack: &mut Vec<ControlBlock>, c: u32) -> (r: Result<(), ()>)
    ensures
        r is Ok <==> walk_increment(old(stack)@, c) is Some,
        r is Ok ==> final(stack)@ == walk_increment(old(stack)@, c)->0,
        r is Ok ==> {
            &&& final(stack).len() == old(stack).len()
            &&& final(stack).len() > 0
            &&& frame_sum(final(stack)@) == frame_sum(old(stack)@) + c
            &&& forall|j: int|
                0 <= j < final(stack).len() ==> final(stack)[j].active.start_pos == old(
                    stack,
                )[j].active.start_pos
            &&& forall|x: int| starts_within(old(stack)@, x) ==> #[trigger] starts_within(final(stack)@, x)
            &&& forall|t: Seq<Instruction>| frames_ok(old(stack)@, t) ==> #[trigger] frames_ok(final(stack)@, t)
            &&& forall|p: int| #[trigger] cost_at(final(stack)@, p) >= cost_at(old(stack)@, p)
            &&& cost_at(final(stack)@, old(stack)@.last().active.start_pos as int) >= cost_at(
                old(stack)@,
                old(stack)@.last().active.start_pos as int,
            ) + c
        },
{
    let n = stack.len();
    if n == 0 {
        return Err(());
    }
    let top = stack[n - 1];
    match top.active.cost.checked_add(c as u64) {
        Some(cost) => {
            let f = ControlBlock {
                lowest_forward_br_target: top.lowest_forward_br_target,
                active: MeteredBlock { start_pos: top.active.start_pos, cost },
                is_loop: top.is_loop,
            };
            proof {
                lemma_frame_sum_update(stack@, n - 1, f);
            }
            stack.set(n - 1, f);
            assert forall|x: int| starts_within(old(stack)@, x) implies #[trigger] starts_within(stack@, x) by {
                assert forall|j: int| 0 <= j < stack@.len() implies stack@[j].active.start_pos <= x by {
                    assert(stack@[j].active.start_pos == old(stack)@[j].active.start_pos);
                }
            }
            assert forall|t: Seq<Instruction>| frames_ok(old(stack)@, t) implies #[trigger] frames_ok(stack@, t) by {
                assert forall|j: int| 0 <= j < stack@.len() implies may_start_block(
                    t,
                    #[trigger] stack@[j].active.start_pos as int,
                ) by {
                    assert(stack@[j].active.start_pos == old(stack)@[j].active.start_pos);
                }
            }
            proof {
                assert forall|p: int| #[trigger] cost_at(stack@, p) >= cost_at(old(stack)@, p) by {
                    lemma_cost_at_update(old(stack)@, n - 1, f, p);
                }
                lemma_cost_at_update(old(stack)@, n - 1, f, top.active.start_pos as int);
            }
            Ok(())
        },
        None => Err(()),
    }
}

/// Ends the innermost frame's active block at `cursor` and opens the next
/// one at `cursor + 1`. A block that began where the enclosing frame's
/// active block began is merged into that one; any other block with a cost
/// is recorded in `buckets` at its start.
fn finalize_metered_block(
    stack: &mut Vec<ControlBlock>,
    buckets: &mut Vec<u64>,
    cursor: usize,
    Ghost(s): Ghost<Seq<Instruction>>,
) -> (r: Result<(), ()>)
    requires
        cursor < old(buckets).len(),
        cursor < s.len(),
        opens_block_after(s[cursor as int]),
        starts_within(old(stack)@, cursor as int),
        frames_ok(old(stack)@, s),
        buckets_ok(old(buckets)@, s),
    ensures
        r is Ok <==> walk_finalize_block(old(stack)@, old(buckets)@, cursor as int) is Some,
        r is Ok ==> (final(stack)@, final(buckets)@) == walk_finalize_block(old(stack)@, old(buckets)@, cursor as int)->0,
        final(buckets).len() == old(buckets).len(),
        r is Ok ==> frames_ok(final(stack)@, s) && buckets_ok(final(buckets)@, s),
        r is Ok ==> heavier(final(stack)@, final(buckets)@, old(stack)@, old(buckets)@),
        r is Ok ==> starts_within(final(stack)@, cursor + 1),
        r is Ok ==> {
            &&& final(stack).len() == old(stack).len()
            &&& final(stack).len() > 0
            &&& frame_sum(final(stack)@) + bucket_sum(final(buckets)@) == frame_sum(old(stack)@)
                + bucket_sum(old(buckets)@)
            &&& final(stack)@.last().active.start_pos == cursor + 1
            &&& final(stack)@.last().active.cost == 0
            &&& forall|j: int|
                0 <= j < final(stack).len() - 1 ==> final(stack)[j].active.start_pos == old(
                    stack,
                )[j].active.start_pos
        },
{
    let n = stack.len();
    if n == 0 {
        return Err(());
    }
    let top = stack[n - 1];
    let closing = top.active;
    let fresh = ControlBlock {
        lowest_forward_br_target: top.lowest_forward_br_target,
        active: MeteredBlock { start_pos: cursor + 1, cost: 0 },
        is_loop: top.is_loop,
    };
    proof {
        lemma_frame_sum_update(stack@, n - 1, fresh);
    }
    stack.set(n - 1, fresh);
    let ghost s1 = stack@;
    if n > 1 {
        let prev = stack[n - 2];
        if closing.start_pos == prev.active.start_pos {
            match prev.active.cost.checked_add(closing.cost) {
                Some(cost) => {
                    let merged = ControlBlock {
                        lowest_forward_br_target: prev.lowest_forward_br_target,
                        active: MeteredBlock { start_pos: prev.active.start_pos, cost },
                        is_loop: prev.is_loop,
                    };
                    proof {
                        lemma_frame_sum_update(stack@, n - 2, merged);
                    }
                    stack.set(n - 2, merged);
                    proof {
                        assert forall|p: int| 0 <= p < buckets@.len() implies #[trigger] weight(stack@, buckets@, p)
                            >= weight(old(stack)@, old(buckets)@, p) by {
                            lemma_cost_at_update(old(stack)@, n - 1, fresh, p);
                            lemma_cost_at_update(s1, n - 2, merged, p);
                        }
                    }
                    return Ok(());
                },
                None => {
                    return Err(());
                },
            }
        }
    }
    assert(may_start_block(s, closing.start_pos as int));
    if closing.cost > 0 {
        let p = closing.start_pos;
        match buckets[p].checked_add(closing.cost) {
            Some(v) => {
                proof {
                    lemma_bucket_sum_update(buckets@, p as int, v);
                }
                buckets.set(p, v);
            },
            None => {
                return Err(());
            },
        }
    }
    proof {
        assert forall|q: int| 0 <= q < buckets@.len() implies #[trigger] weight(stack@, buckets@, q) >= weight(
            old(stack)@,
            old(buckets)@,
            q,
        ) by {
            lemma_cost_at_update(old(stack)@, n - 1, fresh, q);
        }
    }
    Ok(())
}

/// Records that the innermost frame may branch to the frame at stack index
/// `target`; a branch to a loop goes backward and is not recorded.
fn note_branch_target(stack: &mut Vec<ControlBlock>, target: usize) -> (r: Result<(), ()>)
    ensures
        r is Ok <==> walk_note(old(stack)@, target as int) is Some,
        r is Ok ==> final(stack)@ == walk_note(old(stack)@, target as int)->0,
        r is Ok ==> {
            &&& final(stack).len() == old(stack).len()
            &&& forall|j: int| 0 <= j < final(stack).len() ==> final(stack)[j].active == old(stack)[j].active
            &&& forall|x: int| starts_within(old(stack)@, x) ==> #[trigger] starts_within(final(stack)@, x)
        },
{
    let n = stack.len();
    if target >= n {
        return Err(());
    }
    if stack[target].is_loop {
        return Ok(());
    }
    let top = stack[n - 1];
    let lowest = if target < top.lowest_forward_br_target {
        target
    } else {
        top.lowest_forward_br_target
    };
    stack.set(
        n - 1,
        ControlBlock { lowest_forward_br_target: lowest, active: top.active, is_loop: top.is_loop },
    );
    assert forall|x: int| starts_within(old(stack)@, x) implies #[trigger] starts_within(stack@, x) by {
        assert forall|j: int| 0 <= j < stack@.len() implies stack@[j].active.start_pos <= x by {
            assert(stack@[j].active == old(stack)@[j].active);
        }
    }
    Ok(())
}

/// The stack index of the frame that a branch of depth `label` targets.
fn branch_target(stack: &Vec<ControlBlock>, label: u32) -> (r: Result<usize, ()>)
    ensures
        r is Ok <==> (stack.len() > 0 && label < stack.len()),
        r is Ok ==> r->Ok_0 == stack.len() - 1 - label,
{
    let n = stack.len();
    if n == 0 || label as usize >= n {
        Err(())
    } else {
        Ok(n - 1 - label as usize)
    }
}

/// Opens a frame whose first metered block starts at `start`.
fn begin_control_block(stack: &mut Vec<ControlBlock>, start: usize, is_loop: bool)
    ensures
        final(stack)@ == old(stack)@.push(
            (ControlBlock {
                lowest_forward_br_target: old(stack).len(),
                active: MeteredBlock { start_pos: start, cost: 0 },
                is_loop,
            }),
        ),
        frame_sum(final(stack)@) == frame_sum(old(stack)@),
        forall|x: int| starts_within(old(stack)@, x) && start <= x ==> #[trigger] starts_within(final(stack)@, x),
        forall|p: int| #[trigger] cost_at(final(stack)@, p) == cost_at(old(stack)@, p),
        forall|t: Seq<Instruction>|
            frames_ok(old(stack)@, t) && may_start_block(t, start as int) ==> #[trigger] frames_ok(final(stack)@, t),
{
    let n = stack.len();
    let f = ControlBlock {
        lowest_forward_br_target: n,
        active: MeteredBlock { start_pos: start, cost: 0 },
        is_loop,
    };
    stack.push(f);
    assert(stack@.drop_last() =~= old(stack)@);
    assert forall|x: int| starts_within(old(stack)@, x) && start <= x implies #[trigger] starts_within(stack@, x) by {
        assert forall|j: int| 0 <= j < stack@.len() implies stack@[j].active.start_pos <= x by {
            if j < n {
                assert(stack@[j] == old(stack)@[j]);
            }
        }
    }
    assert forall|t: Seq<Instruction>|
        frames_ok(old(stack)@, t) && may_start_block(t, start as int) implies #[trigger] frames_ok(stack@, t) by {
        assert forall|j: int| 0 <= j < stack@.len() implies may_start_block(
            t,
            #[trigger] stack@[j].active.start_pos as int,
        ) by {
            if j < n {
                assert(stack@[j] == old(stack)@[j]);
            }
        }
    }
}

/// Closes the innermost frame at its `end` at `cursor`. Where a branch from
/// inside it may leave the enclosing frame too, the enclosing frame's active
/// block ends here as well.
fn finalize_control_block(
    stack: &mut Vec<ControlBlock>,
    buckets: &mut Vec<u64>,
    cursor: usize,
    Ghost(s): Ghost<Seq<Instruction>>,
) -> (r: Result<(), ()>)
    requires
        cursor < old(buckets).len(),
        cursor < s.len(),
        opens_block_after(s[cursor as int]),
        starts_within(old(stack)@, cursor as int),
        frames_ok(old(stack)@, s),
        buckets_ok(old(buckets)@, s),
    ensures
        r is Ok <==> walk_finalize_control(old(stack)@, old(buckets)@, cursor as int) is Some,
        r is Ok ==> (final(stack)@, final(buckets)@) == walk_finalize_control(old(stack)@, old(buckets)@, cursor as int)->0,
        final(buckets).len() == old(buckets).len(),
        r is Ok ==> frames_ok(final(stack)@, s) && buckets_ok(final(buckets)@, s),
        r is Ok ==> heavier(final(stack)@, final(buckets)@, old(stack)@, old(buckets)@),
        r is Ok ==> {
            &&& frame_sum(final(stack)@) + bucket_sum(final(buckets)@) == frame_sum(old(stack)@)
                + bucket_sum(old(buckets)@)
            &&& starts_within(final(stack)@, cursor + 1)
        },
{
    finalize_metered_block(stack, buckets, cursor, Ghost(s))?;
    let ghost s1 = stack@;
    let ghost b1 = buckets@;
    let closing = match stack.pop() {
        Some(c) => c,
        None => {
            return Err(());
        },
    };
    assert(s1.drop_last() =~= stack@);
    assert forall|p: int| 0 <= p < buckets@.len() implies #[trigger] weight(stack@, buckets@, p) >= weight(
        old(stack)@,
        old(buckets)@,
        p,
    ) by {
        assert(weight(s1, b1, p) >= weight(old(stack)@, old(buckets)@, p));
    }
    let n = stack.len();
    if n == 0 {
        return Ok(());
    }
    let ghost s2 = stack@;
    let top = stack[n - 1];
    let lowest = if closing.lowest_forward_br_target < top.lowest_forward_br_target {
        closing.lowest_forward_br_target
    } else {
        top.lowest_forward_br_target
    };
    let f = ControlBlock { lowest_forward_br_target: lowest, active: top.active, is_loop: top.is_loop };
    proof {
        lemma_frame_sum_update(stack@, n - 1, f);
    }
    stack.set(n - 1, f);
    assert(frames_ok(stack@, s)) by {
        assert forall|j: int| 0 <= j < stack@.len() implies may_start_block(
            s,
            #[trigger] stack@[j].active.start_pos as int,
        ) by {
            assert(stack@[j].active.start_pos == s1[j].active.start_pos);
        }
    }
    assert forall|p: int| 0 <= p < buckets@.len() implies #[trigger] weight(stack@, buckets@, p) >= weight(
        old(stack)@,
        old(buckets)@,
        p,
    ) by {
        lemma_cost_at_update(s2, n - 1, f, p);
        assert(weight(s2, buckets@, p) >= weight(old(stack)@, old(buckets)@, p));
    }
    if closing.lowest_forward_br_target < n {
        let ghost s3 = stack@;
        let ghost b3 = buckets@;
        finalize_metered_block(stack, buckets, cursor, Ghost(s))?;
        assert forall|p: int| 0 <= p < buckets@.len() implies #[trigger] weight(stack@, buckets@, p) >= weight(
            old(stack)@,
            old(buckets)@,
            p,
        ) by {
            assert(weight(s3, b3, p) >= weight(old(stack)@, old(buckets)@, p));
        }
    }
    Ok(())
}

proof fn lemma_heavier_same(new_s: Seq<ControlBlock>, old_s: Seq<ControlBlock>, b: Seq<u64>)
    requires
        new_s.len() == old_s.len(),
        forall|j: int| 0 <= j < new_s.len() ==> new_s[j].active == old_s[j].active,
    ensures
        heavier(new_s, b, old_s, b),
{
    assert forall|p: int| 0 <= p < b.len() implies #[trigger] weight(new_s, b, p) >= weight(old_s, b, p) by {
        lemma_cost_at_same(new_s, old_s, p);
    }
}

proof fn lemma_heavier_trans(
    s3: Seq<ControlBlock>,
    b3: Seq<u64>,
    s2: Seq<ControlBlock>,
    b2: Seq<u64>,
    s1: Seq<ControlBlock>,
    b1: Seq<u64>,
)
    requires
        heavier(s3, b3, s2, b2),
        heavier(s2, b2, s1, b1),
        b2.len() == b1.len(),
    ensures
        heavier(s3, b3, s1, b1),
{
    assert forall|p: int| 0 <= p < b1.len() implies #[trigger] weight(s3, b3, p) >= weight(s1, b1, p) by {
        assert(weight(s2, b2, p) >= weight(s1, b1, p));
    }
}

/// Whether every depth of `[default] + table` is below `n`.
fn labels_fit(table: &Vec<u32>, default: u32, n: usize) -> (r: bool)
    ensures
        r == walk_targets(n as int, seq![default] + table@) is Some,
{
    let ghost labels = seq![default] + table@;
    assert(labels[0] == default);
    if default as usize >= n {
        return false;
    }
    let mut k: usize = 0;
    while k < table.len()
        invariant
            k <= table.len(),
            labels == seq![default] + table@,
            default < n,
            forall|i: int| 0 <= i < k ==> table@[i] < n,
        decreases table.len() - k,
    {
        if table[k] as usize >= n {
            assert(labels[k + 1] == table@[k as int]);
            return false;
        }
        k = k + 1;
    }
    assert forall|i: int| 0 <= i < labels.len() implies labels[i] < n by {
        if i > 0 {
            assert(labels[i] == table@[i - 1]);
        }
    }
    true
}

/// Records the targets of a branch table, `n - 1 - l` for each depth `l` of
/// `[default] + table`, in turn.
fn note_table(stack: &mut Vec<ControlBlock>, table: &Vec<u32>, default: u32, n: usize, Ghost(ts): Ghost<Seq<int>>) -> (r:
    Result<(), ()>)
    requires
        walk_targets(n as int, seq![default] + table@) == Some(ts),
    ensures
        r is Ok <==> walk_note_all(old(stack)@, ts) is Some,
        r is Ok ==> final(stack)@ == walk_note_all(old(stack)@, ts)->0,
        r is Ok ==> final(stack).len() == old(stack).len(),
        r is Ok ==> forall|j: int| 0 <= j < old(stack).len() ==> final(stack)[j].active == old(stack)[j].active,
        r is Ok ==> forall|x: int| starts_within(old(stack)@, x) ==> #[trigger] starts_within(final(stack)@, x),
{
    let ghost labels = seq![default] + table@;
    assert(labels[0] == default);
    assert(labels[0] < n);
    assert(ts[0] == n - 1 - default);
    assert(ts.subrange(1, ts.len() as int).len() == table.len());
    assert forall|i: int| 0 <= i < table.len() implies table@[i] < n && ts[i + 1] == n - 1 - table@[i] by {
        assert(labels[i + 1] == table@[i]);
    }
    assert(walk_note_all(old(stack)@, ts) == match walk_note(old(stack)@, ts[0]) {
        None => None,
        Some(st2) => walk_note_all(st2, ts.subrange(1, ts.len() as int)),
    });
    note_branch_target(stack, n - 1 - default as usize)?;
    let mut k: usize = 0;
    while k < table.len()
        invariant
            k <= table.len(),
            ts.len() == table.len() + 1,
            forall|i: int| 0 <= i < table.len() ==> table@[i] < n && ts[i + 1] == n - 1 - table@[i],
            walk_note_all(old(stack)@, ts) == walk_note_all(stack@, ts.subrange(k + 1, ts.len() as int)),
            stack.len() == old(stack).len(),
            forall|j: int| 0 <= j < old(stack).len() ==> stack[j].active == old(stack)[j].active,
            forall|x: int| starts_within(old(stack)@, x) ==> #[trigger] starts_within(stack@, x),
        decreases table.len() - k,
    {
        assert(ts.subrange(k + 1, ts.len() as int).subrange(1, ts.len() - k - 1) =~= ts.subrange(
            k + 2,
            ts.len() as int,
        ));
        assert(ts.subrange(k + 1, ts.len() as int)[0] == ts[k + 1]);
        let ghost mid = stack@;
        assert(table@[k as int] < n && ts[k + 1] == n - 1 - table@[k as int]);
        note_branch_target(stack, n - 1 - table[k] as usize)?;
        assert forall|x: int| starts_within(old(stack)@, x) implies #[trigger] starts_within(stack@, x) by {
            assert(starts_within(mid, x));
        }
        k = k + 1;
    }
    assert(ts.subrange(ts.len() as int, ts.len() as int) =~= Seq::<int>::empty());
    Ok(())
}

/// What a charge of `c` to the innermost frame, `old_s` to `new_s`, gives.
proof fn lemma_after_increment(
    new_s: Seq<ControlBlock>,
    old_s: Seq<ControlBlock>,
    b: Seq<u64>,
    c: u32,
    cursor: int,
)
    requires
        0 <= cursor < b.len(),
        forall|p: int| #[trigger] cost_at(new_s, p) >= cost_at(old_s, p),
        old_s.len() > 0 ==> cost_at(new_s, old_s.last().active.start_pos as int) >= cost_at(
            old_s,
            old_s.last().active.start_pos as int,
        ) + c,
    ensures
        heavier(new_s, b, old_s, b),
        old_s.len() > 0 && old_s.last().active.start_pos == cursor && c > 0 ==> weight(new_s, b, cursor) > 0,
{
    assert forall|p: int| 0 <= p < b.len() implies #[trigger] weight(new_s, b, p) >= weight(old_s, b, p) by {
        assert(cost_at(new_s, p) >= cost_at(old_s, p));
    }
    lemma_cost_at_nonneg(old_s, cursor);
}

/// Opening a frame leaves every position's weight as it was after the
/// charge that preceded it.
proof fn lemma_heavier_by_costs(
    st: Seq<ControlBlock>,
    sa: Seq<ControlBlock>,
    b: Seq<u64>,
    s0: Seq<ControlBlock>,
    b0: Seq<u64>,
)
    requires
        forall|p: int| #[trigger] cost_at(st, p) == cost_at(sa, p),
        heavier(sa, b, s0, b0),
        b.len() == b0.len(),
    ensures
        heavier(st, b, sa, b),
        heavier(st, b, s0, b0),
{
    assert forall|p: int| 0 <= p < b.len() implies #[trigger] weight(st, b, p) >= weight(sa, b, p) by {
        assert(cost_at(st, p) == cost_at(sa, p));
    }
    assert forall|p: int| 0 <= p < b0.len() implies #[trigger] weight(st, b, p) >= weight(s0, b0, p) by {
        assert(weight(sa, b, p) >= weight(s0, b0, p));
    }
}

/// Recording branch targets, `s1` to `st`, changes no active block, so the
/// sums, the weights and the starts of blocks carry over.
proof fn lemma_after_notes(
    st: Seq<ControlBlock>,
    s1: Seq<ControlBlock>,
    b: Seq<u64>,
    sa: Seq<ControlBlock>,
    s0: Seq<ControlBlock>,
    b0: Seq<u64>,
    s: Seq<Instruction>,
)
    requires
        st.len() == s1.len(),
        forall|j: int| 0 <= j < s1.len() ==> st[j].active == s1[j].active,
        heavier(s1, b, sa, b0),
        heavier(sa, b0, s0, b0),
        b.len() == b0.len(),
        frames_ok(s1, s),
    ensures
        frame_sum(st) == frame_sum(s1),
        heavier(st, b, sa, b0),
        heavier(st, b, s0, b0),
        frames_ok(st, s),
{
    lemma_frame_sum_same(st, s1);
    lemma_heavier_same(st, s1, b);
    lemma_heavier_trans(st, b, s1, b, sa, b0);
    lemma_heavier_trans(st, b, sa, b0, s0, b0);
    assert forall|j: int| 0 <= j < st.len() implies may_start_block(s, #[trigger] st[j].active.start_pos as int) by {
        assert(st[j].active == s1[j].active);
    }
}

/// Handles one instruction of cost `c` at `cursor`.
#[verifier::rlimit(90)]
#[verifier::spinoff_prover]
fn step(
    stack: &mut Vec<ControlBlock>,
    buckets: &mut Vec<u64>,
    instr: &Instruction,
    c: u32,
    cursor: usize,
    Ghost(s): Ghost<Seq<Instruction>>,
) -> (r: Result<(), ()>)
    requires
        cursor < old(buckets).len(),
        cursor < s.len(),
        s[cursor as int] == *instr,
        starts_within(old(stack)@, cursor as int),
        frames_ok(old(stack)@, s),
        buckets_ok(old(buckets)@, s),
    ensures
        r is Ok <==> walk_step(old(stack)@, old(buckets)@, *instr, c, cursor as int) is Some,
        r is Ok ==> (final(stack)@, final(buckets)@) == walk_step(old(stack)@, old(buckets)@, *instr, c, cursor as int)->0,
        final(buckets).len() == old(buckets).len(),
        r is Ok ==> frames_ok(final(stack)@, s) && buckets_ok(final(buckets)@, s),
        r is Ok ==> heavier(final(stack)@, final(buckets)@, old(stack)@, old(buckets)@),
        r is Ok && diverges_after(*instr) ==> final(stack).len() > 0 && final(stack)@.last().active.start_pos
            == cursor + 1,
        r is Ok && old(stack).len() > 0 && old(stack)@.last().active.start_pos == cursor && !(*instr is End)
            && !(*instr is Else) && c > 0 ==> weight(final(stack)@, final(buckets)@, cursor as int) > 0,
        r is Ok ==> {
            &&& frame_sum(final(stack)@) + bucket_sum(final(buckets)@) == frame_sum(old(stack)@)
                + bucket_sum(old(buckets)@) + match *instr {
                Instruction::End | Instruction::Else => 0int,
                _ => c as int,
            }
            &&& starts_within(final(stack)@, cursor + 1)
        },
{
    match instr {
        Instruction::End => {
            finalize_control_block(stack, buckets, cursor, Ghost(s))
        },
        Instruction::Else => {
            finalize_metered_block(stack, buckets, cursor, Ghost(s))
        },
        Instruction::Block(_) => {
            increment(stack, c)?;
            let ghost sa = stack@;
            proof {
                lemma_after_increment(sa, old(stack)@, old(buckets)@, c, cursor as int);
            }
            assert(starts_within(stack@, cursor as int));
            assert(starts_within(stack@, cursor + 1));
            let n = stack.len();
            let start = stack[n - 1].active.start_pos;
            begin_control_block(stack, start, false);
            proof {
                lemma_heavier_by_costs(stack@, sa, buckets@, old(stack)@, old(buckets)@);
            }
            assert(walk_step(old(stack)@, old(buckets)@, *instr, c, cursor as int) == Some((stack@, buckets@)));
            Ok(())
        },
        Instruction::If(_) => {
            increment(stack, c)?;
            let ghost sa = stack@;
            proof {
                lemma_after_increment(sa, old(stack)@, old(buckets)@, c, cursor as int);
            }
            assert(starts_within(stack@, cursor as int));
            assert(starts_within(stack@, cursor + 1));
            begin_control_block(stack, cursor + 1, false);
            proof {
                lemma_heavier_by_costs(stack@, sa, buckets@, old(stack)@, old(buckets)@);
            }
            assert(walk_step(old(stack)@, old(buckets)@, *instr, c, cursor as int) == Some((stack@, buckets@)));
            Ok(())
        },
        Instruction::Loop(_) => {
            increment(stack, c)?;
            let ghost sa = stack@;
            proof {
                lemma_after_increment(sa, old(stack)@, old(buckets)@, c, cursor as int);
            }
            assert(starts_within(stack@, cursor as int));
            assert(starts_within(stack@, cursor + 1));
            begin_control_block(stack, cursor + 1, true);
            proof {
                lemma_heavier_by_costs(stack@, sa, buckets@, old(stack)@, old(buckets)@);
            }
            assert(walk_step(old(stack)@, old(buckets)@, *instr, c, cursor as int) == Some((stack@, buckets@)));
            Ok(())
        },
        Instruction::Br(label) | Instruction::BrIf(label) => {
            increment(stack, c)?;
            let ghost sa = stack@;
            proof {
                lemma_after_increment(sa, old(stack)@, old(buckets)@, c, cursor as int);
            }
            let target = match branch_target(stack, *label) {
                Ok(t) => t,
                Err(_) => {
                    assert(!(seq![*label][0] < sa.len()));
                    return Err(());
                },
            };
            let ghost ts = seq![target as int];
            assert(walk_targets(sa.len() as int, seq![*label]) == Some(ts)) by {
                assert(seq![*label].map_values(|l: u32| sa.len() as int - 1 - l) =~= ts);
            }
            assert(ts.subrange(1, 1) =~= Seq::<int>::empty());
            assert(frames_ok(stack@, s));
            finalize_metered_block(stack, buckets, cursor, Ghost(s))?;
            let ghost s1 = stack@;
            note_branch_target(stack, target)?;
            proof {
                lemma_after_notes(stack@, s1, buckets@, sa, old(stack)@, old(buckets)@, s);
            }
            assert(ts[0] == target as int);
            assert(walk_note_all(stack@, ts.subrange(1, ts.len() as int)) == Some(stack@));
            assert(walk_note_all(s1, ts) == Some(stack@));
            assert(walk_step(old(stack)@, old(buckets)@, *instr, c, cursor as int) == Some((stack@, buckets@)));
            Ok(())
        },
        Instruction::BrTable(table, default) => {
            increment(stack, c)?;
            let ghost sa = stack@;
            proof {
                lemma_after_increment(sa, old(stack)@, old(buckets)@, c, cursor as int);
            }
            let n = stack.len();
            if !labels_fit(table, *default, n) {
                return Err(());
            }
            let ghost ts = walk_targets(sa.len() as int, seq![*default] + table@)->0;
            assert(frames_ok(stack@, s));
            finalize_metered_block(stack, buckets, cursor, Ghost(s))?;
            let ghost s1 = stack@;
            note_table(stack, table, *default, n, Ghost(ts))?;
            proof {
                lemma_after_notes(stack@, s1, buckets@, sa, old(stack)@, old(buckets)@, s);
            }
            assert(walk_step(old(stack)@, old(buckets)@, *instr, c, cursor as int) == Some((stack@, buckets@)));
            Ok(())
        },
        Instruction::Return => {
            increment(stack, c)?;
            let ghost sa = stack@;
            proof {
                lemma_after_increment(sa, old(stack)@, old(buckets)@, c, cursor as int);
            }
            assert(frames_ok(stack@, s));
            assert(seq![0int].subrange(1, 1) =~= Seq::<int>::empty());
            finalize_metered_block(stack, buckets, cursor, Ghost(s))?;
            let ghost s1 = stack@;
            note_branch_target(stack, 0)?;
            proof {
                lemma_after_notes(stack@, s1, buckets@, sa, old(stack)@, old(buckets)@, s);
            }
            assert(walk_note_all(stack@, seq![0int].subrange(1, 1)) == Some(stack@));
            assert(walk_note_all(s1, seq![0int]) == Some(stack@));
            assert(walk_step(old(stack)@, old(buckets)@, *instr, c, cursor as int) == Some((stack@, buckets@)));
            Ok(())
        },
        Instruction::Unreachable => {
            increment(stack, c)?;
            let ghost sa = stack@;
            proof {
                lemma_after_increment(sa, old(stack)@, old(buckets)@, c, cursor as int);
            }
            assert(frames_ok(stack@, s));
            finalize_metered_block(stack, buckets, cursor, Ghost(s))?;
            proof {
                lemma_heavier_trans(stack@, buckets@, sa, old(buckets)@, old(stack)@, old(buckets)@);
            }
            assert(walk_step(old(stack)@, old(buckets)@, *instr, c, cursor as int) == Some((stack@, buckets@)));
            Ok(())
        },
        _ => {
            increment(stack, c)?;
            let ghost sa = stack@;
            proof {
                lemma_after_increment(sa, old(stack)@, old(buckets)@, c, cursor as int);
            }
            assert(starts_within(stack@, cursor as int));
            assert(starts_within(stack@, cursor + 1));
            assert(walk_step(old(stack)@, old(buckets)@, *instr, c, cursor as int) == Some((stack@, buckets@)));
            Ok(())
        },
    }
}

proof fn lemma_walk_stays_none(s: Seq<Instruction>, rules: RuleSet, k: nat, m: nat)
    requires
        k <= m,
        walk(s, rules, k) is None,
    ensures
        walk(s, rules, m) is None,
    decreases m - k,
{
    if k < m {
        lemma_walk_stays_none(s, rules, k, (m - 1) as nat);
    }
}

/// Every frame is still in the block where the body began and no branch
/// has left any frame; only position 0 has a recorded cost.
spec fn flat(st: Seq<ControlBlock>, b: Seq<u64>) -> bool {
    &&& forall|j: int|
        0 <= j < st.len() ==> (#[trigger] st[j]).active.start_pos == 0 && st[j].lowest_forward_br_target == j
            && !st[j].is_loop
    &&& forall|p: int| 0 < p < b.len() ==> #[trigger] b[p] == 0
}

proof fn lemma_flat_step(st: Seq<ControlBlock>, b: Seq<u64>, i: Instruction, c: u32, cursor: int)
    requires
        flat(st, b),
        b.len() > 0,
        st.len() < usize::MAX,
        !diverges_after(i),
        walk_step(st, b, i, c, cursor) is Some,
    ensures
        ({
            let w = walk_step(st, b, i, c, cursor)->0;
            flat(w.0, w.1) && w.1.len() == b.len() && w.0.len() <= st.len() + 1
        }),
{
    let n = st.len();
    match i {
        Instruction::End => {
            let f = walk_finalize_block(st, b, cursor)->0;
            let st1 = f.0;
            let b1 = f.1;
            assert(flat(st1.drop_last(), b1)) by {
                assert forall|j: int| 0 <= j < st1.drop_last().len() implies (#[trigger] st1.drop_last()[j]).active.start_pos == 0
                    && st1.drop_last()[j].lowest_forward_br_target == j && !st1.drop_last()[j].is_loop by {
                    assert(st1.drop_last()[j] == st1[j]);
                    assert(st1[j].lowest_forward_br_target == st[j].lowest_forward_br_target);
                }
            }
            let st2 = st1.drop_last();
            if st2.len() > 0 {
                let top = st2.last();
                let closing = st1.last();
                assert(closing.lowest_forward_br_target == st[n - 1].lowest_forward_br_target);
                let st3 = st2.update(
                    st2.len() - 1,
                    ControlBlock {
                        lowest_forward_br_target: if closing.lowest_forward_br_target
                            < top.lowest_forward_br_target {
                            closing.lowest_forward_br_target
                        } else {
                            top.lowest_forward_br_target
                        },
                        active: top.active,
                        is_loop: top.is_loop,
                    },
                );
                assert(flat(st3, b1)) by {
                    assert forall|j: int| 0 <= j < st3.len() implies (#[trigger] st3[j]).active.start_pos == 0
                        && st3[j].lowest_forward_br_target == j && !st3[j].is_loop by {
                        assert(st2[j].lowest_forward_br_target == j);
                    }
                }
            }
        },
        Instruction::Block(_) => {
            let st1 = walk_increment(st, c)->0;
            assert(flat(st1, b)) by {
                assert forall|j: int| 0 <= j < st1.len() implies (#[trigger] st1[j]).active.start_pos == 0
                    && st1[j].lowest_forward_br_target == j && !st1[j].is_loop by {
                    assert(st[j].lowest_forward_br_target == j);
                }
            }
            assert(st1.len() > 0);
            assert(st1[st1.len() - 1].active.start_pos == 0);
            let st2 = walk_begin(st1, st1.last().active.start_pos, false);
            assert(flat(st2, b)) by {
                assert forall|j: int| 0 <= j < st2.len() implies (#[trigger] st2[j]).active.start_pos == 0
                    && st2[j].lowest_forward_br_target == j && !st2[j].is_loop by {
                    if j < st1.len() {
                        assert(st2[j] == st1[j]);
                    } else {
                        assert(j == st1.len());
                    }
                }
            }
        },
        _ => {
            let st1 = walk_increment(st, c)->0;
            assert(flat(st1, b)) by {
                assert forall|j: int| 0 <= j < st1.len() implies (#[trigger] st1[j]).active.start_pos == 0
                    && st1[j].lowest_forward_br_target == j && !st1[j].is_loop by {
                    assert(st[j].lowest_forward_br_target == j);
                }
            }
        },
    }
}

proof fn lemma_flat_walk(s: Seq<Instruction>, rules: RuleSet, k: nat)
    requires
        k <= s.len(),
        0 < s.len() < usize::MAX,
        forall|i: int| 0 <= i < s.len() ==> !diverges_after(#[trigger] s[i]),
        walk(s, rules, k) is Some,
    ensures
        ({
            let w = walk(s, rules, k)->0;
            flat(w.0, w.1) && w.1.len() == s.len() && w.0.len() <= k + 1
        }),
    decreases k,
{
    if k > 0 {
        let k1 = (k - 1) as nat;
        assert(walk(s, rules, k1) is Some);
        lemma_flat_walk(s, rules, k1);
        let w = walk(s, rules, k1)->0;
        assert(!diverges_after(s[k1 as int]));
        lemma_flat_step(w.0, w.1, s[k1 as int], rules.cost(s[k1 as int]), k1 as int);
    }
}

proof fn lemma_blocks_upto_starts(b: Seq<u64>, p: nat)
    requires
        b.len() <= usize::MAX,
    ensures
        forall|k: int|
            0 <= k < blocks_upto(b, p).len() ==> {
                let q = (#[trigger] blocks_upto(b, p)[k]).start_pos as int;
                &&& q < p
                &&& q < b.len()
                &&& b[q] > 0
            },
        forall|k: int, l: int|
            0 <= k < l < blocks_upto(b, p).len() ==> blocks_upto(b, p)[k].start_pos < blocks_upto(b, p)[l].start_pos,
    decreases p,
{
    if p > 0 {
        let q = (p - 1) as nat;
        lemma_blocks_upto_starts(b, q);
        let prev = blocks_upto(b, q);
        if q < b.len() && b[q as int] > 0 {
            let cur = blocks_upto(b, p);
            assert(cur == prev.push(MeteredBlock { start_pos: q as usize, cost: b[q as int] }));
            assert forall|k: int| 0 <= k < cur.len() implies {
                let r = (#[trigger] cur[k]).start_pos as int;
                &&& r < p
                &&& r < b.len()
                &&& b[r] > 0
            } by {
                if k < prev.len() {
                    assert(cur[k] == prev[k]);
                }
            }
            assert forall|k: int, l: int| 0 <= k < l < cur.len() implies cur[k].start_pos < cur[l].start_pos by {
                assert(cur[k] == prev[k]);
                if l < prev.len() {
                    assert(cur[l] == prev[l]);
                }
            }
        }
    }
}

/// A body with no `if`, `loop`, `else`, branch, `return` or `unreachable`
/// is metered as one block at its first instruction: a `block` that no
/// branch leaves stays in the block that holds it, and its `end` starts no
/// new block.
pub proof fn lemma_straight_body_one_block(s: Seq<Instruction>, rules: RuleSet)
    requires
        s.len() < usize::MAX,
        forall|i: int| 0 <= i < s.len() ==> !diverges_after(#[trigger] s[i]),
        metered_blocks(s, rules) is Some,
    ensures
        metered_blocks(s, rules)->0.len() <= 1,
        forall|k: int|
            0 <= k < metered_blocks(s, rules)->0.len() ==> (#[trigger] metered_blocks(s, rules)->0[k]).start_pos == 0,
{
    let n = s.len();
    let w = walk(s, rules, n)->0;
    let b2 = walk_finish(w.0, w.1, n as int)->0;
    if n > 0 {
        lemma_flat_walk(s, rules, n);
        assert(b2.len() == n);
        assert forall|q: int| 0 < q < b2.len() implies b2[q] == 0 by {
            assert(w.1[q] == 0);
        }
    } else {
        assert(b2.len() == 0);
    }
    lemma_blocks_upto_starts(b2, n);
    let mb = metered_blocks(s, rules)->0;
    assert(mb == blocks_upto(b2, n));
    assert forall|k: int| 0 <= k < mb.len() implies (#[trigger] mb[k]).start_pos == 0 by {
        let q = mb[k].start_pos as int;
        assert(b2[q] > 0);
    }
    if mb.len() > 1 {
        assert(mb[0].start_pos < mb[1].start_pos);
    }
}

/// The blocks recorded in `buckets`, by increasing start.
fn collect_blocks(buckets: &Vec<u64>, Ghost(s): Ghost<Seq<Instruction>>, Ghost(rules): Ghost<RuleSet>) -> (r: Option<
    Vec<MeteredBlock>,
>)
    requires
        buckets.len() == s.len(),
        buckets_ok(buckets@, s),
        forall|q: int| #[trigger] must_start_block(s, rules, q) ==> buckets@[q] > 0,
    ensures
        r is Some <==> forall|p: int| 0 <= p < buckets@.len() ==> buckets@[p] <= u32::MAX,
        r is Some ==> ({
            let blocks = r->Some_0;
            &&& blocks_well_formed(blocks@, s.len() as int)
            &&& forall|k: int| 0 <= k < blocks@.len() ==> may_start_block(s, #[trigger] blocks@[k].start_pos as int)
            &&& forall|q: int|
                #[trigger] must_start_block(s, rules, q) ==> exists|k: int|
                    0 <= k < blocks@.len() && blocks@[k].start_pos == q
            &&& sum_costs(blocks@) == bucket_sum(buckets@)
            &&& blocks@ == blocks_upto(buckets@, s.len())
        }),
{
    let n = buckets.len();
    let ghost total = bucket_sum(buckets@);
    let mut blocks: Vec<MeteredBlock> = Vec::new();
    for p in 0..n
        invariant
            n == buckets.len(),
            bucket_sum(buckets@) == total,
            sum_costs(blocks@) == bucket_sum(buckets@.subrange(0, p as int)),
            buckets_ok(buckets@, s),
            forall|k: int| 0 <= k < blocks.len() ==> blocks[k].start_pos < p && 0 < blocks[k].cost <= u32::MAX,
            forall|q: int| 0 <= q < p ==> buckets@[q] <= u32::MAX,
            forall|k: int| 0 <= k < blocks.len() ==> may_start_block(s, #[trigger] blocks[k].start_pos as int),
            forall|q: int| #[trigger] must_start_block(s, rules, q) ==> buckets@[q] > 0,
            forall|q: int|
                0 <= q < p && #[trigger] buckets@[q] > 0 ==> exists|k: int| 0 <= k < blocks.len() && blocks[k].start_pos == q,
            forall|k: int, l: int| 0 <= k < l < blocks.len() ==> blocks[k].start_pos < blocks[l].start_pos,
            blocks@ == blocks_upto(buckets@, p as nat),
    {
        if buckets[p] > u32::MAX as u64 {
            return None;
        }
        assert(buckets@.subrange(0, p + 1).drop_last() =~= buckets@.subrange(0, p as int));
        let ghost before = blocks@;
        if buckets[p] > 0 {
            blocks.push(MeteredBlock { start_pos: p, cost: buckets[p] });
            assert(blocks@.drop_last() =~= before);
            assert(blocks@[before.len() as int].start_pos == p);
        }
        assert forall|q: int| 0 <= q < p + 1 && #[trigger] buckets@[q] > 0 implies exists|k: int|
            0 <= k < blocks.len() && blocks[k].start_pos == q by {
            if q < p {
                let k = choose|k: int| 0 <= k < before.len() && before[k].start_pos == q;
                assert(blocks@[k] == before[k]);
            } else {
                assert(blocks@[blocks.len() - 1].start_pos == q);
            }
        }
    }
    assert(buckets@.subrange(0, n as int) =~= buckets@);
    assert forall|q: int| #[trigger] must_start_block(s, rules, q) implies exists|k: int|
        0 <= k < blocks@.len() && blocks@[k].start_pos == q by {
        assert(buckets@[q] > 0);
    }
    Some(blocks)
}

/// Divides a function body into metered blocks.
///
/// Fails where the rule set forbids an instruction of the body, where the
/// control structure is malformed (an unbalanced `end` or `else`, a branch
/// deeper than the open frames, a frame other than the function's left open
/// at the end), or where a block's cost does not fit in 32 bits. On success
/// the blocks are ordered by start, each has a cost that fits in 32 bits,
/// each starts at the body's start or right after an
/// instruction where control may diverge or rejoin, one starts at every
/// position that holds an instruction with a cost right after an `if`,
/// `loop`, `else`, branch, `return` or `unreachable`, and together they cost
/// exactly what the body's instructions cost.
#[verifier::spinoff_prover]
pub fn determine_metered_blocks(instructions: &Vec<Instruction>, rules: &RuleSet) -> (r: Result<
    Vec<MeteredBlock>,
    (),
>)
    ensures
        r is Ok <==> metered_blocks(instructions@, *rules) is Some,
        r is Ok ==> r->Ok_0@ == metered_blocks(instructions@, *rules)->0,
        (exists|i: int| 0 <= i < instructions.len() && rules.forbids(instructions[i])) ==> r is Err,
        r is Ok ==> {
            &&& blocks_well_formed(r->Ok_0@, instructions.len() as int)
            &&& forall|k: int|
                0 <= k < r->Ok_0@.len() ==> may_start_block(instructions@, #[trigger] r->Ok_0@[k].start_pos as int)
            &&& forall|p: int|
                #[trigger] must_start_block(instructions@, *rules, p) ==> exists|k: int|
                    0 <= k < r->Ok_0@.len() && r->Ok_0@[k].start_pos == p
            &&& sum_costs(r->Ok_0@) == total_charge(*rules, instructions@)
        },
{
    let n = instructions.len();
    let mut buckets: Vec<u64> = Vec::new();
    for k in 0..n
        invariant
            buckets@ == Seq::new(k as nat, |i: int| 0u64),
    {
        buckets.push(0);
        assert(buckets@ =~= Seq::new((k + 1) as nat, |i: int| 0u64));
    }
    proof {
        lemma_bucket_sum_zeros(n as nat);
    }
    let mut stack: Vec<ControlBlock> = Vec::new();
    begin_control_block(&mut stack, 0, false);
    assert(stack@ =~= seq![
        ControlBlock {
            lowest_forward_br_target: 0,
            active: MeteredBlock { start_pos: 0, cost: 0 },
            is_loop: false,
        },
    ]);
    assert(instructions@.subrange(0, 0) =~= Seq::<Instruction>::empty());
    let mut cursor: usize = 0;
    while cursor < n
        invariant
            n == instructions.len(),
            cursor <= n,
            buckets.len() == n,
            starts_within(stack@, cursor as int),
            frames_ok(stack@, instructions@),
            buckets_ok(buckets@, instructions@),
            forall|p: int|
                0 <= p < cursor && #[trigger] must_start_block(instructions@, *rules, p) ==> weight(
                    stack@,
                    buckets@,
                    p,
                ) > 0,
            cursor >= 1 && diverges_after(instructions@[cursor - 1]) ==> stack.len() > 0
                && stack@.last().active.start_pos == cursor,
            frame_sum(stack@) + bucket_sum(buckets@) == total_charge(
                *rules,
                instructions@.subrange(0, cursor as int),
            ),
            forall|i: int| 0 <= i < cursor ==> !rules.forbids(instructions[i]),
            walk(instructions@, *rules, cursor as nat) == Some((stack@, buckets@)),
        decreases n - cursor,
    {
        let instr = &instructions[cursor];
        let c = match rules.process(instr) {
            Ok(c) => c,
            Err(_) => {
                proof {
                    lemma_walk_stays_none(instructions@, *rules, (cursor + 1) as nat, n as nat);
                }
                return Err(());
            },
        };
        let ghost s0 = stack@;
        let ghost b0 = buckets@;
        match step(&mut stack, &mut buckets, instr, c, cursor, Ghost(instructions@)) {
            Ok(_) => {},
            Err(_) => {
                proof {
                    lemma_walk_stays_none(instructions@, *rules, (cursor + 1) as nat, n as nat);
                }
                return Err(());
            },
        }
        assert forall|p: int|
            0 <= p < cursor + 1 && #[trigger] must_start_block(instructions@, *rules, p) implies weight(
            stack@,
            buckets@,
            p,
        ) > 0 by {
            if p < cursor {
                assert(weight(s0, b0, p) > 0);
                assert(weight(stack@, buckets@, p) >= weight(s0, b0, p));
            }
        }
        assert(instructions@.subrange(0, cursor + 1).drop_last() =~= instructions@.subrange(
            0,
            cursor as int,
        ));
        cursor = cursor + 1;
    }
    if stack.len() > 1 {
        return Err(());
    }
    let ghost b_end = buckets@;
    assert forall|p: int| #[trigger] must_start_block(instructions@, *rules, p) implies b_end[p] + cost_at(stack@, p)
        > 0 by {
        assert(weight(stack@, b_end, p) > 0);
    }
    if stack.len() == 0 {
        assert forall|p: int| #[trigger] must_start_block(instructions@, *rules, p) implies buckets@[p] > 0 by {
            assert(b_end[p] + cost_at(stack@, p) > 0);
        }
    }
    if stack.len() == 1 {
        assert(frame_sum(stack@.drop_last()) == 0);
        assert(cost_at(stack@.drop_last(), 0) == 0);
        assert forall|p: int| #[trigger] cost_at(stack@, p) == if stack@[0].active.start_pos == p {
            stack@[0].active.cost as int
        } else {
            0
        } by {
            assert(cost_at(stack@.drop_last(), p) == 0);
        }
        assert(stack@.last() == stack@[0]);
        assert(frame_sum(stack@) == stack@[0].active.cost);
        let rest = stack[0].active;
        if rest.cost > 0 {
            if rest.start_pos >= n {
                return Err(());
            }
            assert(may_start_block(instructions@, stack@[0].active.start_pos as int));
            match buckets[rest.start_pos].checked_add(rest.cost) {
                Some(v) => {
                    proof {
                        lemma_bucket_sum_update(buckets@, rest.start_pos as int, v);
                    }
                    buckets.set(rest.start_pos, v);
                },
                None => {
                    return Err(());
                },
            }
        }
        assert forall|p: int| #[trigger] must_start_block(instructions@, *rules, p) implies buckets@[p] > 0 by {
            assert(b_end[p] + cost_at(stack@, p) > 0);
            assert(cost_at(stack@, p) == if stack@[0].active.start_pos == p {
                stack@[0].active.cost as int
            } else {
                0
            });
        }
    }
    assert(instructions@.subrange(0, n as int) =~= instructions@);
    assert(forall|q: int| #[trigger] must_start_block(instructions@, *rules, q) ==> buckets@[q] > 0);
    match collect_blocks(&buckets, Ghost(instructions@), Ghost(*rules)) {
        Some(blocks) => {
            assert(blocks_well_formed(blocks@, n as int));
            assert(sum_costs(blocks@) == total_charge(*rules, instructions@));
            assert(blocks@ == metered_blocks(instructions@, *rules)->0);
            assert(forall|k: int|
                0 <= k < blocks@.len() ==> may_start_block(instructions@, #[trigger] blocks@[k].start_pos as int));
            assert(forall|q: int|
                #[trigger] must_start_block(instructions@, *rules, q) ==> exists|k: int|
                    0 <= k < blocks@.len() && blocks@[k].start_pos == q);
            let r: Result<Vec<MeteredBlock>, ()> = Ok(blocks);
            assert(r->Ok_0@ == blocks@);
            r
        },
        None => Err(()),
    }
}

} // verus!
