//! Rewrites of one body: insertion of the block charges, the shift of
//! function indices past the `env.gas` import, and the replacement of
//! `memory.grow` by a call of the grow thunk.
use vstd::prelude::*;
use crate::instruction::Instruction;
use crate::metering::{MeteredBlock, blocks_well_formed};

verus! {

/// The two instructions that charge block `b` through function `gas`. The
/// cost is handed to `i32.const` as Rust's `as` converts a `u64` to an `i32`,
/// which is also what the executable code does.
pub open spec fn charge_instrs(b: MeteredBlock, gas: u32) -> Seq<Instruction> {
    seq![Instruction::I32Const(b.cost as i32), Instruction::Call(gas)]
}

/// The constant that charges block `b`, read as a `u32`, is the block's
/// cost, wherever that cost fits in 32 bits (as it does for every block of
/// `metered_blocks`).
pub proof fn lemma_charge_constant(b: MeteredBlock, gas: u32)
    requires
        b.cost <= u32::MAX,
    ensures
        charge_instrs(b, gas)[0] matches Instruction::I32Const(v) && v as u32 == b.cost,
{
    let c = b.cost;
    assert(((c as i32) as u32) as u64 == c) by (bit_vector)
        requires
            c <= 0xffff_ffffu64,
    ;
}

/// The instructions from position `i` on, with the charge of the next unused
/// block (the `k`-th) put before the instruction at which it starts.
pub open spec fn metered(s: Seq<Instruction>, blocks: Seq<MeteredBlock>, gas: u32, i: int, k: int) -> Seq<
    Instruction,
>
    decreases s.len() - i,
{
    if i < 0 || i >= s.len() {
        Seq::empty()
    } else if 0 <= k < blocks.len() && blocks[k].start_pos == i {
        charge_instrs(blocks[k], gas).push(s[i]) + metered(s, blocks, gas, i + 1, k + 1)
    } else {
        seq![s[i]] + metered(s, blocks, gas, i + 1, k)
    }
}

/// How many blocks have been used once the stream of `metered(s, blocks, gas,
/// i, k)` has ended.
pub open spec fn consumed(s: Seq<Instruction>, blocks: Seq<MeteredBlock>, i: int, k: int) -> int
    decreases s.len() - i,
{
    if i < 0 || i >= s.len() {
        k
    } else if 0 <= k < blocks.len() && blocks[k].start_pos == i {
        consumed(s, blocks, i + 1, k + 1)
    } else {
        consumed(s, blocks, i + 1, k)
    }
}

/// Well-formed blocks are all used by the stream.
pub proof fn lemma_well_formed_consumed(s: Seq<Instruction>, blocks: Seq<MeteredBlock>, i: int, k: int)
    requires
        blocks_well_formed(blocks, s.len() as int),
        0 <= i <= s.len(),
        0 <= k <= blocks.len(),
        forall|l: int| k <= l < blocks.len() ==> blocks[l].start_pos >= i,
    ensures
        consumed(s, blocks, i, k) == blocks.len(),
    decreases s.len() - i,
{
    if i < s.len() {
        if k < blocks.len() && blocks[k].start_pos == i {
            lemma_well_formed_consumed(s, blocks, i + 1, k + 1);
        } else {
            lemma_well_formed_consumed(s, blocks, i + 1, k);
        }
    } else if k < blocks.len() {
        assert(blocks[k].start_pos < s.len());
    }
}

/// Puts `i32.const <cost>; call <gas_func>` before the instruction at which
/// each block starts. Fails where a block is left unused, which happens
/// exactly when the blocks are not ordered positions inside the body.
pub fn insert_metering_calls(instructions: &mut Vec<Instruction>, blocks: Vec<MeteredBlock>, gas_func: u32) -> (r:
    Result<(), ()>)
    ensures
        final(instructions)@ == metered(old(instructions)@, blocks@, gas_func, 0, 0),
        r is Ok <==> consumed(old(instructions)@, blocks@, 0, 0) == blocks.len(),
{
    let n = instructions.len();
    let extra = match blocks.len().checked_mul(2) {
        Some(d) => d,
        None => 0,
    };
    let capacity = match n.checked_add(extra) {
        Some(c) => c,
        None => n,
    };
    let mut input: Vec<Instruction> = Vec::with_capacity(capacity);
    std::mem::swap(&mut input, instructions);
    let ghost orig = input@;
    let mut k: usize = 0;
    let mut i: usize = 0;
    while i < n
        invariant
            n == orig.len(),
            input.len() == n,
            i <= n,
            k <= i,
            k <= blocks.len(),
            forall|j: int| i <= j < n ==> input@[j] == orig[j],
            instructions@ + metered(orig, blocks@, gas_func, i as int, k as int) == metered(
                orig,
                blocks@,
                gas_func,
                0,
                0,
            ),
            consumed(orig, blocks@, i as int, k as int) == consumed(orig, blocks@, 0, 0),
        decreases n - i,
    {
        let mut instr = Instruction::Nop;
        input.set_and_swap(i, &mut instr);
        let ghost before = instructions@;
        if k < blocks.len() && blocks[k].start_pos == i {
            instructions.push(Instruction::I32Const(blocks[k].cost as i32));
            instructions.push(Instruction::Call(gas_func));
            instructions.push(instr);
            assert(instructions@ =~= before + charge_instrs(blocks@[k as int], gas_func).push(
                orig[i as int],
            ));
            assert(before + charge_instrs(blocks@[k as int], gas_func).push(orig[i as int])
                + metered(orig, blocks@, gas_func, i + 1, k + 1) =~= before + (charge_instrs(
                blocks@[k as int],
                gas_func,
            ).push(orig[i as int]) + metered(orig, blocks@, gas_func, i + 1, k + 1)));
            k = k + 1;
        } else {
            instructions.push(instr);
            assert(instructions@ + metered(orig, blocks@, gas_func, i + 1, k as int) =~= before + (
            seq![orig[i as int]] + metered(orig, blocks@, gas_func, i + 1, k as int)));
        }
        i = i + 1;
    }
    assert(instructions@ =~= metered(orig, blocks@, gas_func, 0, 0));
    if k < blocks.len() {
        return Err(());
    }
    Ok(())
}

/// A function index after `env.gas` is declared at index `gas`: indices from
/// `gas` on move up by one.
pub open spec fn shifted_index(f: u32, gas: u32) -> u32 {
    if f >= gas {
        (f + 1) as u32
    } else {
        f
    }
}

/// An instruction with its function index shifted.
pub open spec fn shift_call(i: Instruction, gas: u32) -> Instruction {
    match i {
        Instruction::Call(f) => Instruction::Call(shifted_index(f, gas)),
        _ => i,
    }
}

/// Every function index that `s` refers to is below `bound`.
pub open spec fn calls_below(s: Seq<Instruction>, bound: int) -> bool {
    forall|j: int| 0 <= j < s.len() ==> (#[trigger] s[j] matches Instruction::Call(f) ==> f < bound)
}

/// Shifts the index of every `call` to a function at index `gas_func` or
/// above by one. `call_indirect` names a type and is left alone.
pub fn update_call_index(instructions: &mut Vec<Instruction>, gas_func: u32)
    requires
        calls_below(old(instructions)@, u32::MAX as int),
    ensures
        final(instructions)@ == old(instructions)@.map_values(|i| shift_call(i, gas_func)),
{
    let ghost orig = instructions@;
    let n = instructions.len();
    for j in 0..n
        invariant
            n == orig.len(),
            instructions.len() == n,
            calls_below(orig, u32::MAX as int),
            forall|p: int| 0 <= p < j ==> instructions@[p] == shift_call(orig[p], gas_func),
            forall|p: int| j <= p < n ==> instructions@[p] == orig[p],
    {
        if let Instruction::Call(f) = instructions[j] {
            if f >= gas_func {
                instructions.set(j, Instruction::Call(f + 1));
            }
        }
    }
    assert(instructions@ =~= orig.map_values(|i| shift_call(i, gas_func)));
}

/// An instruction with `memory.grow 0` turned into a call of `grow_func`.
pub open spec fn replace_grow(i: Instruction, grow_func: u32) -> Instruction {
    if i == Instruction::GrowMemory(0) {
        Instruction::Call(grow_func)
    } else {
        i
    }
}

/// The number of `memory.grow 0` instructions in `s`.
pub open spec fn count_grows(s: Seq<Instruction>) -> nat
    decreases s.len(),
{
    if s.len() == 0 {
        0
    } else {
        count_grows(s.drop_last()) + if s.last() == Instruction::GrowMemory(0) {
            1nat
        } else {
            0nat
        }
    }
}

/// Turns every `memory.grow 0` into a call of `grow_func`, and returns how
/// many there were.
pub fn inject_grow_counter(instructions: &mut Vec<Instruction>, grow_func: u32) -> (r: usize)
    ensures
        final(instructions)@ == old(instructions)@.map_values(|i| replace_grow(i, grow_func)),
        r == count_grows(old(instructions)@),
{
    let ghost orig = instructions@;
    let n = instructions.len();
    let mut count: usize = 0;
    for j in 0..n
        invariant
            n == orig.len(),
            instructions.len() == n,
            count == count_grows(orig.subrange(0, j as int)),
            count <= j,
            forall|p: int| 0 <= p < j ==> instructions@[p] == replace_grow(orig[p], grow_func),
            forall|p: int| j <= p < n ==> instructions@[p] == orig[p],
    {
        assert(orig.subrange(0, j + 1).drop_last() =~= orig.subrange(0, j as int));
        if let Instruction::GrowMemory(0) = instructions[j] {
            instructions.set(j, Instruction::Call(grow_func));
            count = count + 1;
        }
    }
    assert(orig.subrange(0, n as int) =~= orig);
    assert(instructions@ =~= orig.map_values(|i| replace_grow(i, grow_func)));
    count
}

} // verus!
