//! Facts about metered modules, proved from the contracts of the metering
//! functions.
use vstd::prelude::*;
use crate::instruction::{Instruction, ValueType};
use crate::inject::{calls_below, consumed, lemma_well_formed_consumed, metered, shift_call, charge_instrs};
use crate::metering::{MeteredBlock, blocks_well_formed, sum_costs, total_charge};
use crate::module::{External, Module, function_imports};
use crate::gas::{adds_thunk, grow_step, has_grow, is_injected, is_instrumented, thunk_body};
use crate::rules::RuleSet;

verus! {

/// Each instruction of a metered stream is a charge (`i32.const` or a call
/// of `gas`) or one of the instructions from position `i` on.
pub proof fn lemma_metered_element(
    s: Seq<Instruction>,
    blocks: Seq<MeteredBlock>,
    gas: u32,
    i: int,
    k: int,
    p: int,
)
    requires
        0 <= i,
        0 <= p < metered(s, blocks, gas, i, k).len(),
    ensures
        metered(s, blocks, gas, i, k)[p] is I32Const || metered(s, blocks, gas, i, k)[p]
            == Instruction::Call(gas) || exists|q: int|
            i <= q < s.len() && metered(s, blocks, gas, i, k)[p] == s[q],
    decreases s.len() - i,
{
    if i >= s.len() {
    } else if 0 <= k < blocks.len() && blocks[k].start_pos == i {
        let piece = charge_instrs(blocks[k], gas).push(s[i]);
        if p >= 3 {
            lemma_metered_element(s, blocks, gas, i + 1, k + 1, p - 3);
            let q = choose|q: int|
                i + 1 <= q < s.len() && metered(s, blocks, gas, i + 1, k + 1)[p - 3] == s[q];
            if metered(s, blocks, gas, i + 1, k + 1)[p - 3] is I32Const || metered(
                s,
                blocks,
                gas,
                i + 1,
                k + 1,
            )[p - 3] == Instruction::Call(gas) {
            } else {
                assert(metered(s, blocks, gas, i, k)[p] == s[q]);
            }
        } else if p == 2 {
            assert(metered(s, blocks, gas, i, k)[p] == s[i]);
        }
    } else {
        if p >= 1 {
            lemma_metered_element(s, blocks, gas, i + 1, k, p - 1);
            let q = choose|q: int| i + 1 <= q < s.len() && metered(s, blocks, gas, i + 1, k)[p - 1] == s[q];
            if metered(s, blocks, gas, i + 1, k)[p - 1] is I32Const || metered(s, blocks, gas, i + 1, k)[p
                - 1] == Instruction::Call(gas) {
            } else {
                assert(metered(s, blocks, gas, i, k)[p] == s[q]);
            }
        } else {
            assert(metered(s, blocks, gas, i, k)[p] == s[i]);
        }
    }
}

/// A body whose first metered block starts at its first instruction begins
/// with `i32.const <cost of that block>; call <gas>`.
pub proof fn lemma_body_starts_with_charge(
    s: Seq<Instruction>,
    blocks: Seq<MeteredBlock>,
    gas: u32,
    grow_on: bool,
    thunk: u32,
)
    requires
        blocks_well_formed(blocks, s.len() as int),
        blocks.len() > 0,
        blocks[0].start_pos == 0,
    ensures
        ({
            let out = metered(s.map_values(|i| shift_call(i, gas)), blocks, gas, 0, 0).map_values(
                |i| grow_step(i, grow_on, thunk),
            );
            &&& out.len() >= 2
            &&& out[0] == Instruction::I32Const(blocks[0].cost as i32)
            &&& out[1] == Instruction::Call(gas)
        }),
{
    let sh = s.map_values(|i| shift_call(i, gas));
    assert(sh.len() > 0);
    let m = metered(sh, blocks, gas, 0, 0);
    assert(m == charge_instrs(blocks[0], gas).push(sh[0]) + metered(sh, blocks, gas, 1, 1));
    assert(m[0] == Instruction::I32Const(blocks[0].cost as i32));
    assert(m[1] == Instruction::Call(gas));
}

/// The metered module imports exactly one function more than its input:
/// the last of its function imports, `env.gas`, of signature `(i32) -> ()`.
pub proof fn lemma_gas_import(m: Module, rules: RuleSet, out: Module)
    requires
        is_injected(m, rules, out),
    ensures
        function_imports(out.imports@) == function_imports(m.imports@) + 1,
        out.imports@.last().module@ == "env"@,
        out.imports@.last().field@ == "gas"@,
        out.imports@.last().external matches External::Function(t) && out.types@[t as int].params@ == seq![ValueType::I32]
            && out.types@[t as int].result is None,
{
    assert(out.imports@.drop_last() =~= m.imports@);
}

/// Where `memory.grow` is metered and the input grows memory, the only
/// `memory.grow 0` left is the one in the appended thunk.
pub proof fn lemma_single_grow(m: Module, rules: RuleSet, out: Module)
    requires
        is_injected(m, rules, out),
        rules.grow > 0,
        has_grow(m),
    ensures
        out.code.len() == m.code.len() + 1,
        forall|j: int, p: int|
            0 <= j < m.code.len() && 0 <= p < out.code@[j].code.len() ==> #[trigger] out.code@[j].code@[p]
                != Instruction::GrowMemory(0),
        out.code@[m.code.len() as int].code@[5] == Instruction::GrowMemory(0),
        forall|p: int|
            0 <= p < out.code@[m.code.len() as int].code.len() && p != 5 ==> !(
            #[trigger] out.code@[m.code.len() as int].code@[p] is GrowMemory),
{
    assert(adds_thunk(m, rules));
    let thunk = (m.function_space() + 1) as u32;
    let gas = function_imports(m.imports@) as u32;
    assert forall|j: int, p: int|
        0 <= j < m.code.len() && 0 <= p < out.code@[j].code.len() implies #[trigger] out.code@[j].code@[p]
        != Instruction::GrowMemory(0) by {
        assert(is_instrumented(m.code@[j].code@, out.code@[j].code@, rules, gas, true, thunk));
        let blocks = choose|blocks: Seq<MeteredBlock>|
            #[trigger] blocks_well_formed(blocks, m.code@[j].code.len() as int) && out.code@[j].code@
                == metered(m.code@[j].code@.map_values(|i| shift_call(i, gas)), blocks, gas, 0, 0).map_values(
                |i| grow_step(i, true, thunk),
            );
        let x = metered(m.code@[j].code@.map_values(|i| shift_call(i, gas)), blocks, gas, 0, 0);
        assert(out.code@[j].code@[p] == grow_step(x[p], true, thunk));
    }
}

/// Every function index that the metered module refers to lies in its
/// function space, where the input's did.
pub proof fn lemma_references_in_range(m: Module, rules: RuleSet, out: Module)
    requires
        is_injected(m, rules, out),
        m.references_below(m.function_space() as int),
    ensures
        out.references_below(out.function_space() as int),
{
    lemma_gas_import(m, rules, out);
    let space = m.function_space();
    let gas = function_imports(m.imports@) as u32;
    let thunk = (space + 1) as u32;
    let grow_on = rules.grow > 0;
    let bound = out.function_space() as int;
    assert(bound >= space + 1);
    assert(adds_thunk(m, rules) ==> bound == space + 2);
    assert forall|j: int| 0 <= j < out.code.len() implies calls_below(#[trigger] out.code@[j].code@, bound) by {
        if j < m.code.len() {
            assert(is_instrumented(m.code@[j].code@, out.code@[j].code@, rules, gas, grow_on, thunk));
            let s = m.code@[j].code@;
            let sh = s.map_values(|i| shift_call(i, gas));
            let blocks = choose|blocks: Seq<MeteredBlock>|
                #[trigger] blocks_well_formed(blocks, s.len() as int) && out.code@[j].code@ == metered(
                    sh,
                    blocks,
                    gas,
                    0,
                    0,
                ).map_values(|i| grow_step(i, grow_on, thunk));
            let x = metered(sh, blocks, gas, 0, 0);
            assert(calls_below(s, space as int));
            assert forall|p: int| 0 <= p < out.code@[j].code.len() implies (
            #[trigger] out.code@[j].code@[p] matches Instruction::Call(f) ==> f < bound) by {
                lemma_metered_element(sh, blocks, gas, 0, 0, p);
                assert(out.code@[j].code@[p] == grow_step(x[p], grow_on, thunk));
                if x[p] is I32Const || x[p] == Instruction::Call(gas) {
                } else {
                    let q = choose|q: int| 0 <= q < sh.len() && x[p] == sh[q];
                    assert(x[p] == shift_call(s[q], gas));
                    if grow_on && s[q] == Instruction::GrowMemory(0) {
                        assert(m.code@[j].code@[q] == Instruction::GrowMemory(0));
                        assert(has_grow(m));
                    }
                }
            }
        } else {
            assert(adds_thunk(m, rules));
            assert(out.code@[j].code@ == thunk_body(rules.grow, gas));
        }
    }
}

/// The number of calls of function `f` in `s`.
pub open spec fn count_calls_to(s: Seq<Instruction>, f: u32) -> nat
    decreases s.len(),
{
    if s.len() == 0 {
        0
    } else {
        count_calls_to(s.drop_last(), f) + if s.last() == Instruction::Call(f) {
            1nat
        } else {
            0nat
        }
    }
}

proof fn lemma_count_concat(a: Seq<Instruction>, b: Seq<Instruction>, f: u32)
    ensures
        count_calls_to(a + b, f) == count_calls_to(a, f) + count_calls_to(b, f),
    decreases b.len(),
{
    if b.len() == 0 {
        assert(a + b =~= a);
    } else {
        assert((a + b).drop_last() =~= a + b.drop_last());
        lemma_count_concat(a, b.drop_last(), f);
    }
}

proof fn lemma_count_grow_step(x: Seq<Instruction>, gas: u32, grow_on: bool, thunk: u32)
    requires
        thunk != gas,
    ensures
        count_calls_to(x.map_values(|i| grow_step(i, grow_on, thunk)), gas) == count_calls_to(x, gas),
    decreases x.len(),
{
    if x.len() > 0 {
        assert(x.map_values(|i| grow_step(i, grow_on, thunk)).drop_last() =~= x.drop_last().map_values(
            |i| grow_step(i, grow_on, thunk),
        ));
        lemma_count_grow_step(x.drop_last(), gas, grow_on, thunk);
    }
}

proof fn lemma_count_metered(s: Seq<Instruction>, blocks: Seq<MeteredBlock>, gas: u32, i: int, k: int)
    requires
        0 <= i,
        forall|q: int| i <= q < s.len() ==> s[q] != Instruction::Call(gas),
    ensures
        count_calls_to(metered(s, blocks, gas, i, k), gas) == consumed(s, blocks, i, k) - k,
    decreases s.len() - i,
{
    if i < s.len() {
        if 0 <= k < blocks.len() && blocks[k].start_pos == i {
            let piece = charge_instrs(blocks[k], gas).push(s[i]);
            lemma_count_metered(s, blocks, gas, i + 1, k + 1);
            lemma_count_concat(piece, metered(s, blocks, gas, i + 1, k + 1), gas);
            let first_two = piece.drop_last();
            let first = first_two.drop_last();
            assert(first.drop_last().len() == 0);
            assert(count_calls_to(first.drop_last(), gas) == 0);
            assert(first.last() is I32Const);
            assert(count_calls_to(first, gas) == 0);
            assert(first_two.last() == Instruction::Call(gas));
            assert(count_calls_to(first_two, gas) == 1);
            assert(piece.last() == s[i]);
            assert(count_calls_to(piece, gas) == 1);
        } else {
            lemma_count_metered(s, blocks, gas, i + 1, k);
            lemma_count_concat(seq![s[i]], metered(s, blocks, gas, i + 1, k), gas);
            assert(seq![s[i]].drop_last() =~= Seq::<Instruction>::empty());
            assert(count_calls_to(seq![s[i]].drop_last(), gas) == 0);
            assert(count_calls_to(seq![s[i]], gas) == 0);
        }
    }
}

/// In each metered body the calls of `env.gas` are exactly the charges: as
/// many as the body has metered blocks, every one of which costs something.
pub proof fn lemma_charge_count(m: Module, rules: RuleSet, out: Module, j: int)
    requires
        is_injected(m, rules, out),
        m.references_below(u32::MAX as int),
        0 <= j < m.code.len(),
    ensures
        exists|blocks: Seq<MeteredBlock>|
            #[trigger] blocks_well_formed(blocks, m.code@[j].code.len() as int) && sum_costs(blocks)
                == total_charge(rules, m.code@[j].code@) && count_calls_to(
                out.code@[j].code@,
                function_imports(m.imports@) as u32,
            ) == blocks.len(),
{
    let space = m.function_space();
    let gas = function_imports(m.imports@) as u32;
    let thunk = (space + 1) as u32;
    let grow_on = rules.grow > 0;
    let s = m.code@[j].code@;
    let sh = s.map_values(|i| shift_call(i, gas));
    assert(is_instrumented(s, out.code@[j].code@, rules, gas, grow_on, thunk));
    let blocks = choose|blocks: Seq<MeteredBlock>|
        #[trigger] blocks_well_formed(blocks, s.len() as int) && sum_costs(blocks) == total_charge(rules, s)
            && out.code@[j].code@ == metered(sh, blocks, gas, 0, 0).map_values(
            |i| grow_step(i, grow_on, thunk),
        );
    assert(calls_below(s, u32::MAX as int));
    assert forall|q: int| 0 <= q < sh.len() implies sh[q] != Instruction::Call(gas) by {
        assert(s[q] matches Instruction::Call(f) ==> f < u32::MAX);
    }
    assert(sh.len() == s.len());
    lemma_count_metered(sh, blocks, gas, 0, 0);
    lemma_well_formed_consumed(sh, blocks, 0, 0);
    assert(consumed(sh, blocks, 0, 0) == blocks.len());
    assert(function_imports(m.imports@) <= space);
    assert(thunk != gas);
    lemma_count_grow_step(metered(sh, blocks, gas, 0, 0), gas, grow_on, thunk);
    assert(count_calls_to(out.code@[j].code@, gas) == blocks.len());
    assert(blocks_well_formed(blocks, m.code@[j].code.len() as int));
}

/// `s` with every charge (`i32.const` directly followed by a call of `gas`)
/// removed.
pub open spec fn unmeter(s: Seq<Instruction>, gas: u32) -> Seq<Instruction>
    decreases s.len(),
{
    if s.len() == 0 {
        s
    } else if s.len() >= 2 && s[0] is I32Const && s[1] == Instruction::Call(gas) {
        unmeter(s.subrange(2, s.len() as int), gas)
    } else {
        seq![s[0]] + unmeter(s.subrange(1, s.len() as int), gas)
    }
}

/// A call of the grow thunk turned back into `memory.grow`.
pub open spec fn inline_grow(i: Instruction, thunk: u32) -> Instruction {
    if i == Instruction::Call(thunk) {
        Instruction::GrowMemory(0)
    } else {
        i
    }
}

/// A function index moved back below the `env.gas` import at `gas`.
pub open spec fn unshift_call(i: Instruction, gas: u32) -> Instruction {
    match i {
        Instruction::Call(f) => Instruction::Call(
            if f > gas {
                (f - 1) as u32
            } else {
                f
            },
        ),
        _ => i,
    }
}

proof fn lemma_metered_head(s: Seq<Instruction>, blocks: Seq<MeteredBlock>, gas: u32, i: int, k: int)
    requires
        0 <= i,
        forall|q: int| i <= q < s.len() ==> s[q] != Instruction::Call(gas),
        metered(s, blocks, gas, i, k).len() > 0,
    ensures
        metered(s, blocks, gas, i, k)[0] != Instruction::Call(gas),
{
    if 0 <= k < blocks.len() && blocks[k].start_pos == i {
        assert(metered(s, blocks, gas, i, k)[0] is I32Const);
    } else {
        assert(metered(s, blocks, gas, i, k)[0] == s[i]);
    }
}

proof fn lemma_unmeter_metered(s: Seq<Instruction>, blocks: Seq<MeteredBlock>, gas: u32, i: int, k: int)
    requires
        0 <= i <= s.len(),
        forall|q: int| i <= q < s.len() ==> s[q] != Instruction::Call(gas),
    ensures
        unmeter(metered(s, blocks, gas, i, k), gas) == s.subrange(i, s.len() as int),
    decreases s.len() - i,
{
    if i == s.len() {
        assert(s.subrange(i, s.len() as int) =~= Seq::<Instruction>::empty());
    } else {
        let charged = 0 <= k < blocks.len() && blocks[k].start_pos == i;
        let k2 = if charged {
            k + 1
        } else {
            k
        };
        let rest = metered(s, blocks, gas, i + 1, k2);
        lemma_unmeter_metered(s, blocks, gas, i + 1, k2);
        let tail = seq![s[i]] + rest;
        if rest.len() > 0 {
            lemma_metered_head(s, blocks, gas, i + 1, k2);
        }
        assert(tail.subrange(1, tail.len() as int) =~= rest);
        assert(unmeter(tail, gas) == seq![s[i]] + unmeter(rest, gas));
        if charged {
            let whole = metered(s, blocks, gas, i, k);
            assert(whole =~= seq![Instruction::I32Const(blocks[k].cost as i32), Instruction::Call(gas)] + tail);
            assert(whole.subrange(2, whole.len() as int) =~= tail);
        }
        assert(seq![s[i]] + s.subrange(i + 1, s.len() as int) =~= s.subrange(i, s.len() as int));
    }
}

/// Removing the charges from a metered body, turning each call of the grow
/// thunk back into `memory.grow` and moving function indices back below the
/// `env.gas` import gives back the input body, where the input refers only
/// to functions of its function space.
pub proof fn lemma_strip_round_trip(m: Module, rules: RuleSet, out: Module, j: int)
    requires
        is_injected(m, rules, out),
        m.references_below(m.function_space() as int),
        0 <= j < m.code.len(),
    ensures
        unmeter(
            out.code@[j].code@.map_values(|i| inline_grow(i, (m.function_space() + 1) as u32)),
            function_imports(m.imports@) as u32,
        ).map_values(|i| unshift_call(i, function_imports(m.imports@) as u32)) == m.code@[j].code@,
{
    let space = m.function_space();
    let gas = function_imports(m.imports@) as u32;
    let thunk = (space + 1) as u32;
    let grow_on = rules.grow > 0;
    let s = m.code@[j].code@;
    let sh = s.map_values(|i| shift_call(i, gas));
    assert(is_instrumented(s, out.code@[j].code@, rules, gas, grow_on, thunk));
    let blocks = choose|blocks: Seq<MeteredBlock>|
        #[trigger] blocks_well_formed(blocks, s.len() as int) && sum_costs(blocks) == total_charge(rules, s)
            && out.code@[j].code@ == metered(sh, blocks, gas, 0, 0).map_values(
            |i| grow_step(i, grow_on, thunk),
        );
    let x = metered(sh, blocks, gas, 0, 0);
    assert(calls_below(s, space as int));
    assert(function_imports(m.imports@) <= space);
    assert forall|q: int| 0 <= q < sh.len() implies sh[q] != Instruction::Call(gas) by {
        assert(s[q] matches Instruction::Call(f) ==> f < space);
    }
    assert forall|p: int| 0 <= p < x.len() implies inline_grow(grow_step(#[trigger] x[p], grow_on, thunk), thunk)
        == x[p] by {
        lemma_metered_element(sh, blocks, gas, 0, 0, p);
        if x[p] is I32Const || x[p] == Instruction::Call(gas) {
        } else {
            let q = choose|q: int| 0 <= q < sh.len() && x[p] == sh[q];
            assert(x[p] == shift_call(s[q], gas));
            assert(s[q] matches Instruction::Call(f) ==> f < space);
        }
    }
    assert(out.code@[j].code@.map_values(|i| inline_grow(i, thunk)) =~= x);
    lemma_unmeter_metered(sh, blocks, gas, 0, 0);
    assert(sh.subrange(0, sh.len() as int) =~= sh);
    assert forall|q: int| 0 <= q < s.len() implies unshift_call(#[trigger] sh[q], gas) == s[q] by {
        assert(s[q] matches Instruction::Call(f) ==> f < space);
    }
    assert(sh.map_values(|i| unshift_call(i, gas)) =~= s);
}

} // verus!
