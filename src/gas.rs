//! Metering of a whole module.
use vstd::prelude::*;
use crate::instruction::{Instruction, ValueType};
use crate::inject::{
    calls_below, consumed, inject_grow_counter, insert_metering_calls, lemma_well_formed_consumed,
    metered, replace_grow, shift_call, shifted_index, update_call_index,
};
use crate::metering::{
    MeteredBlock, blocks_well_formed, determine_metered_blocks, may_start_block, metered_blocks,
    must_start_block, sum_costs, total_charge,
};
use crate::module::{
    ElementSegment, ExportEntry, External, FuncBody, FunctionType, ImportEntry, Internal, Module,
    function_imports,
};
use crate::rules::RuleSet;

verus! {

/// An instruction after the optional rewrite of `memory.grow` into a call of
/// the thunk at index `thunk`.
pub open spec fn grow_step(i: Instruction, grow_on: bool, thunk: u32) -> Instruction {
    if grow_on {
        replace_grow(i, thunk)
    } else {
        i
    }
}

/// `out` is body `orig` instrumented: its calls shifted past `gas`, the
/// charge of each of its metered blocks, `metered_blocks(orig, rules)`,
/// inserted (blocks that cover the
/// body's whole static cost, start only where control may diverge or
/// rejoin, and start wherever an instruction with a cost follows a point of
/// divergence), and, where `grow_on`, each `memory.grow` turned into a call
/// of `thunk`.
pub open spec fn is_instrumented(
    orig: Seq<Instruction>,
    out: Seq<Instruction>,
    rules: RuleSet,
    gas: u32,
    grow_on: bool,
    thunk: u32,
) -> bool {
    exists|blocks: Seq<MeteredBlock>|
        #[trigger] blocks_well_formed(blocks, orig.len() as int) && metered_blocks(orig, rules) == Some(blocks)
            && sum_costs(blocks) == total_charge(
            rules,
            orig,
        ) && (forall|k: int| 0 <= k < blocks.len() ==> may_start_block(orig, #[trigger] blocks[k].start_pos as int))
            && (forall|p: int|
            #[trigger] must_start_block(orig, rules, p) ==> exists|k: int|
                0 <= k < blocks.len() && blocks[k].start_pos == p) && out == metered(orig.map_values(|i| shift_call(i, gas)), blocks, gas, 0, 0).map_values(
            |i| grow_step(i, grow_on, thunk),
        )
}

/// Whether some body of `m` holds a `memory.grow 0`.
pub open spec fn has_grow(m: Module) -> bool {
    exists|j: int, p: int|
        0 <= j < m.code.len() && 0 <= p < m.code@[j].code.len() && #[trigger] m.code@[j].code@[p]
            == Instruction::GrowMemory(0)
}

/// The body of the function that charges for and performs a `memory.grow`.
pub open spec fn thunk_body(grow: u32, gas: u32) -> Seq<Instruction> {
    seq![
        Instruction::GetLocal(0),
        Instruction::GetLocal(0),
        Instruction::I32Const(grow as i32),
        Instruction::I32Mul,
        Instruction::Call(gas),
        Instruction::GrowMemory(0),
        Instruction::End,
    ]
}

/// An export with its function index shifted past `gas`.
pub open spec fn shift_internal(i: Internal, gas: u32) -> Internal {
    match i {
        Internal::Function(f) => Internal::Function(shifted_index(f, gas)),
        _ => i,
    }
}

/// Whether `module` can be metered under `rules`: its index spaces have room
/// for the `env.gas` import and the grow thunk, every function index it
/// refers to can be shifted by one, and each body has its metered blocks.
pub open spec fn injectable(module: Module, rules: RuleSet) -> bool {
    &&& module.types.len() < u32::MAX - 1
    &&& module.function_space() < u32::MAX
    &&& module.references_below(u32::MAX as int)
    &&& forall|j: int| 0 <= j < module.code.len() ==> (#[trigger] metered_blocks(module.code@[j].code@, rules)) is Some
}

/// Whether the metering of `m` under `rules` adds the grow thunk.
pub open spec fn adds_thunk(m: Module, rules: RuleSet) -> bool {
    rules.grow > 0 && has_grow(m)
}

/// `out` is module `m` metered under `rules`.
pub open spec fn is_injected(m: Module, rules: RuleSet, out: Module) -> bool {
    let gas = function_imports(m.imports@) as u32;
    let thunk = (m.function_space() + 1) as u32;
    let grow_on = rules.grow > 0;
    let nt = m.types.len();
    let nc = m.code.len();
    &&& nt < u32::MAX
    &&& m.function_space() < u32::MAX
    &&& out.imports@.len() == m.imports@.len() + 1
    &&& forall|j: int| 0 <= j < m.imports.len() ==> out.imports@[j] == m.imports@[j]
    &&& out.imports@.last().module@ == "env"@
    &&& out.imports@.last().field@ == "gas"@
    &&& out.imports@.last().external == External::Function(nt as u32)
    &&& forall|j: int| 0 <= j < nt ==> out.types@[j] == m.types@[j]
    &&& out.types@[nt as int].params@ == seq![ValueType::I32]
    &&& out.types@[nt as int].result is None
    &&& out.exports.len() == m.exports.len()
    &&& forall|j: int|
        0 <= j < m.exports.len() ==> out.exports@[j].field == m.exports@[j].field
            && out.exports@[j].internal == shift_internal(m.exports@[j].internal, gas)
    &&& out.elements.len() == m.elements.len()
    &&& forall|j: int|
        0 <= j < m.elements.len() ==> out.elements@[j].table == m.elements@[j].table
            && out.elements@[j].offset == m.elements@[j].offset && out.elements@[j].members@
            == m.elements@[j].members@.map_values(|f| shifted_index(f, gas))
    &&& out.start == match m.start {
        Some(f) => Some(shifted_index(f, gas)),
        None => None,
    }
    &&& forall|j: int|
        0 <= j < nc ==> out.code@[j].locals == m.code@[j].locals && is_instrumented(
            m.code@[j].code@,
            out.code@[j].code@,
            rules,
            gas,
            grow_on,
            thunk,
        )
    &&& if adds_thunk(m, rules) {
        &&& out.types.len() == nt + 2
        &&& out.types@[nt + 1].params@ == seq![ValueType::I32]
        &&& out.types@[nt + 1].result == Some(ValueType::I32)
        &&& out.functions@ == m.functions@.push((nt + 1) as u32)
        &&& out.code.len() == nc + 1
        &&& out.code@[nc as int].locals@.len() == 0
        &&& out.code@[nc as int].code@ == thunk_body(rules.grow, gas)
    } else {
        &&& out.types.len() == nt + 1
        &&& out.functions@ == m.functions@
        &&& out.code.len() == nc
    }
}

fn module_has_grow(m: &Module) -> (r: bool)
    ensures
        r == has_grow(*m),
{
    for j in 0..m.code.len()
        invariant
            forall|q: int, p: int|
                0 <= q < j && 0 <= p < m.code@[q].code.len() ==> #[trigger] m.code@[q].code@[p]
                    != Instruction::GrowMemory(0),
    {
        let body = &m.code[j].code;
        for p in 0..body.len()
            invariant
                j < m.code@.len(),
                body@ == m.code@[j as int].code@,
                forall|q: int| 0 <= q < p ==> #[trigger] body@[q] != Instruction::GrowMemory(0),
        {
            if let Instruction::GrowMemory(0) = body[p] {
                assert(m.code@[j as int].code@[p as int] == Instruction::GrowMemory(0));
                return true;
            }
        }
    }
    false
}

fn shift_indices(v: &mut Vec<u32>, gas: u32)
    requires
        forall|p: int| 0 <= p < old(v).len() ==> old(v)@[p] < u32::MAX,
    ensures
        final(v)@ == old(v)@.map_values(|f| shifted_index(f, gas)),
{
    let ghost orig = v@;
    let n = v.len();
    for p in 0..n
        invariant
            n == orig.len(),
            v.len() == orig.len(),
            forall|q: int| 0 <= q < orig.len() ==> orig[q] < u32::MAX,
            forall|q: int| 0 <= q < p ==> v@[q] == shifted_index(orig[q], gas),
            forall|q: int| p <= q < orig.len() ==> v@[q] == orig[q],
    {
        let f = v[p];
        assert(f == orig[p as int]);
        if f >= gas {
            v.set(p, f + 1);
        }
    }
    assert(v@ =~= orig.map_values(|f| shifted_index(f, gas)));
}

fn shift_exports(exports: &mut Vec<ExportEntry>, gas: u32)
    requires
        forall|j: int|
            0 <= j < old(exports).len() ==> (#[trigger] old(exports)@[j].internal matches Internal::Function(f) ==> f
                < u32::MAX),
    ensures
        final(exports).len() == old(exports).len(),
        forall|j: int|
            0 <= j < old(exports).len() ==> final(exports)@[j].field == old(exports)@[j].field
                && final(exports)@[j].internal == shift_internal(old(exports)@[j].internal, gas),
{
    let ghost orig = exports@;
    let n = exports.len();
    for j in 0..n
        invariant
            n == orig.len(),
            exports.len() == orig.len(),
            forall|q: int|
                0 <= q < orig.len() ==> (#[trigger] orig[q].internal matches Internal::Function(f) ==> f < u32::MAX),
            forall|q: int|
                0 <= q < j ==> exports@[q].field == orig[q].field && exports@[q].internal == shift_internal(
                    orig[q].internal,
                    gas,
                ),
            forall|q: int| j <= q < orig.len() ==> exports@[q] == orig[q],
    {
        let mut e = ExportEntry { field: String::new(), internal: Internal::Function(0) };
        exports.set_and_swap(j, &mut e);
        assert(e == orig[j as int]);
        assert(orig[j as int].internal matches Internal::Function(f) ==> f < u32::MAX);
        let ExportEntry { field, internal } = e;
        let internal = match internal {
            Internal::Function(f) => Internal::Function(
                if f >= gas {
                    f + 1
                } else {
                    f
                },
            ),
            other => other,
        };
        let mut e = ExportEntry { field, internal };
        exports.set_and_swap(j, &mut e);
    }
}

fn shift_elements(elements: &mut Vec<ElementSegment>, gas: u32)
    requires
        forall|j: int, p: int|
            0 <= j < old(elements).len() && 0 <= p < old(elements)@[j].members.len()
                ==> #[trigger] old(elements)@[j].members@[p] < u32::MAX,
    ensures
        final(elements).len() == old(elements).len(),
        forall|j: int|
            0 <= j < old(elements).len() ==> final(elements)@[j].table == old(elements)@[j].table
                && final(elements)@[j].offset == old(elements)@[j].offset && final(elements)@[j].members@
                == old(elements)@[j].members@.map_values(|f| shifted_index(f, gas)),
{
    let ghost orig = elements@;
    let n = elements.len();
    for j in 0..n
        invariant
            n == orig.len(),
            elements.len() == orig.len(),
            forall|q: int, p: int|
                0 <= q < orig.len() && 0 <= p < orig[q].members.len() ==> #[trigger] orig[q].members@[p]
                    < u32::MAX,
            forall|q: int|
                0 <= q < j ==> elements@[q].table == orig[q].table && elements@[q].offset == orig[q].offset
                    && elements@[q].members@ == orig[q].members@.map_values(|f| shifted_index(f, gas)),
            forall|q: int| j <= q < orig.len() ==> elements@[q] == orig[q],
    {
        let mut e = ElementSegment { table: 0, offset: Vec::new(), members: Vec::new() };
        elements.set_and_swap(j, &mut e);
        let ElementSegment { table, offset, mut members } = e;
        assert(members@ == orig[j as int].members@);
        shift_indices(&mut members, gas);
        let mut e = ElementSegment { table, offset, members };
        elements.set_and_swap(j, &mut e);
    }
}

fn single_i32() -> (r: Vec<ValueType>)
    ensures
        r@ == seq![ValueType::I32],
{
    let mut r: Vec<ValueType> = Vec::new();
    r.push(ValueType::I32);
    r
}

/// Instruments every body, body `j` with the metered blocks `blocks[j]`.
fn instrument_bodies(
    code: &mut Vec<FuncBody>,
    blocks: Vec<Vec<MeteredBlock>>,
    rules: &RuleSet,
    gas: u32,
    grow_on: bool,
    thunk: u32,
)
    requires
        blocks.len() == old(code).len(),
        forall|j: int|
            0 <= j < old(code).len() ==> calls_below(#[trigger] old(code)@[j].code@, u32::MAX as int),
        forall|j: int|
            0 <= j < old(code).len() ==> blocks_well_formed(#[trigger] blocks@[j]@, old(code)@[j].code.len() as int)
                && sum_costs(blocks@[j]@) == total_charge(*rules, old(code)@[j].code@) && (forall|k: int|
                0 <= k < blocks@[j]@.len() ==> may_start_block(
                    old(code)@[j].code@,
                    #[trigger] blocks@[j]@[k].start_pos as int,
                )) && (forall|p: int|
                #[trigger] must_start_block(old(code)@[j].code@, *rules, p) ==> exists|k: int|
                    0 <= k < blocks@[j]@.len() && blocks@[j]@[k].start_pos == p)
                && metered_blocks(old(code)@[j].code@, *rules) == Some(blocks@[j]@),
    ensures
        final(code).len() == old(code).len(),
        forall|j: int| 0 <= j < old(code).len() ==> (#[trigger] final(code)@[j]).locals == old(code)@[j].locals,
        forall|j: int|
            0 <= j < old(code).len() ==> is_instrumented(
                old(code)@[j].code@,
                final(code)@[j].code@,
                *rules,
                gas,
                grow_on,
                thunk,
            ),
{
    let ghost orig = code@;
    let ghost orig_blocks = blocks@;
    let mut blocks = blocks;
    let n = code.len();
    for j in 0..n
        invariant
            n == orig.len(),
            code.len() == n,
            blocks.len() == n,
            forall|q: int| 0 <= q < n ==> calls_below(#[trigger] orig[q].code@, u32::MAX as int),
            forall|q: int|
                0 <= q < n ==> blocks_well_formed(#[trigger] orig_blocks[q]@, orig[q].code.len() as int)
                    && sum_costs(orig_blocks[q]@) == total_charge(*rules, orig[q].code@) && (forall|k: int|
                    0 <= k < orig_blocks[q]@.len() ==> may_start_block(
                        orig[q].code@,
                        #[trigger] orig_blocks[q]@[k].start_pos as int,
                    )) && (forall|p: int|
                    #[trigger] must_start_block(orig[q].code@, *rules, p) ==> exists|k: int|
                        0 <= k < orig_blocks[q]@.len() && orig_blocks[q]@[k].start_pos == p)
                    && metered_blocks(orig[q].code@, *rules) == Some(orig_blocks[q]@),
            forall|q: int| 0 <= q < j ==> (#[trigger] code@[q]).locals == orig[q].locals,
            forall|q: int|
                0 <= q < j ==> is_instrumented(
                    orig[q].code@,
                    #[trigger] code@[q].code@,
                    *rules,
                    gas,
                    grow_on,
                    thunk,
                ),
            forall|q: int| j <= q < n ==> code@[q] == orig[q] && blocks@[q] == orig_blocks[q],
    {
        let mut body = FuncBody { locals: Vec::new(), code: Vec::new() };
        code.set_and_swap(j, &mut body);
        let mut body_blocks: Vec<MeteredBlock> = Vec::new();
        blocks.set_and_swap(j, &mut body_blocks);
        let FuncBody { locals, code: mut instrs } = body;
        let ghost o = instrs@;
        let ghost bb = body_blocks@;
        assert(calls_below(orig[j as int].code@, u32::MAX as int));
        update_call_index(&mut instrs, gas);
        let ghost shifted = instrs@;
        proof {
            assert(blocks_well_formed(orig_blocks[j as int]@, orig[j as int].code.len() as int));
            lemma_well_formed_consumed(shifted, bb, 0, 0);
        }
        let inserted = insert_metering_calls(&mut instrs, body_blocks, gas);
        assert(inserted is Ok);
        let ghost with_charges = instrs@;
        if grow_on {
            inject_grow_counter(&mut instrs, thunk);
        }
        assert(instrs@ =~= with_charges.map_values(|i| grow_step(i, grow_on, thunk)));
        assert(blocks_well_formed(bb, o.len() as int));
        assert(locals == orig[j as int].locals);
        let mut done = FuncBody { locals, code: instrs };
        let ghost before = code@;
        code.set_and_swap(j, &mut done);
        assert(code@ == before.update(j as int, FuncBody { locals: orig[j as int].locals, code: instrs }));
        assert(is_instrumented(orig[j as int].code@, code@[j as int].code@, *rules, gas, grow_on, thunk));
    }
}

/// Appends the grow thunk: a function of signature `(i32) -> i32` that
/// charges `rules.grow` per page asked for through `gas_func`, then grows
/// memory by those pages.
fn add_grow_counter(
    types: &mut Vec<FunctionType>,
    functions: &mut Vec<u32>,
    code: &mut Vec<FuncBody>,
    rules: &RuleSet,
    gas_func: u32,
)
    requires
        old(types).len() < u32::MAX,
    ensures
        final(types)@.len() == old(types)@.len() + 1,
        forall|j: int| 0 <= j < old(types).len() ==> final(types)@[j] == old(types)@[j],
        final(types)@.last().params@ == seq![ValueType::I32],
        final(types)@.last().result == Some(ValueType::I32),
        final(functions)@ == old(functions)@.push(old(types).len() as u32),
        final(code)@.len() == old(code)@.len() + 1,
        forall|j: int| 0 <= j < old(code).len() ==> final(code)@[j] == old(code)@[j],
        final(code)@.last().locals@.len() == 0,
        final(code)@.last().code@ == thunk_body(rules.grow, gas_func),
{
    let sig = types.len() as u32;
    types.push(FunctionType { params: single_i32(), result: Some(ValueType::I32) });
    functions.push(sig);
    let body = vec![
        Instruction::GetLocal(0),
        Instruction::GetLocal(0),
        Instruction::I32Const(rules.grow_cost() as i32),
        Instruction::I32Mul,
        Instruction::Call(gas_func),
        Instruction::GrowMemory(0),
        Instruction::End,
    ];
    code.push(FuncBody { locals: Vec::new(), code: body });
}

/// Instruments `module` for gas metering under `rules`.
///
/// The result imports `env.gas : (i32) -> ()` as its last function import,
/// shifts every function index it refers to past that import, and charges,
/// at the start of each metered block of each body, the block's static cost
/// through `env.gas`. Where the rules price `memory.grow` per page and some
/// body grows memory, each `memory.grow` becomes a call of an appended thunk
/// that charges for the pages asked for and then grows.
///
/// Fails, handing back `module` unchanged, where a body holds an instruction
/// that the rules forbid, is malformed or has a metered block whose cost
/// does not fit in 32 bits, or where an index space is too large to take the
/// new import, signatures and thunk (a function index of `u32::MAX` cannot
/// be shifted).
pub fn inject_gas_counter(module: Module, rules: &RuleSet) -> (r: Result<Module, Module>)
    ensures
        r is Ok <==> injectable(module, *rules),
        r is Err ==> r->Err_0 == module,
        (exists|j: int, p: int|
            0 <= j < module.code.len() && 0 <= p < module.code@[j].code.len() && rules.forbids(
                #[trigger] module.code@[j].code@[p],
            )) ==> r is Err,
        r is Ok ==> is_injected(module, *rules, r->Ok_0),
{
    let space = module.functions_space();
    if space >= u32::MAX as usize || module.types.len() >= (u32::MAX - 1) as usize {
        return Err(module);
    }
    let space = space as u32;
    if !module.references_within(u32::MAX) {
        return Err(module);
    }
    let mut all_blocks: Vec<Vec<MeteredBlock>> = Vec::new();
    for j in 0..module.code.len()
        invariant
            all_blocks.len() == j,
            forall|q: int|
                0 <= q < j ==> blocks_well_formed(#[trigger] all_blocks@[q]@, module.code@[q].code.len() as int)
                    && sum_costs(all_blocks@[q]@) == total_charge(*rules, module.code@[q].code@) && (forall|k: int|
                    0 <= k < all_blocks@[q]@.len() ==> may_start_block(
                        module.code@[q].code@,
                        #[trigger] all_blocks@[q]@[k].start_pos as int,
                    )) && (forall|p: int|
                    #[trigger] must_start_block(module.code@[q].code@, *rules, p) ==> exists|k: int|
                        0 <= k < all_blocks@[q]@.len() && all_blocks@[q]@[k].start_pos == p)
                    && metered_blocks(module.code@[q].code@, *rules) == Some(all_blocks@[q]@),
            forall|q: int, p: int|
                0 <= q < j && 0 <= p < module.code@[q].code.len() ==> !rules.forbids(
                    #[trigger] module.code@[q].code@[p],
                ),
    {
        match determine_metered_blocks(&module.code[j].code, rules) {
            Ok(b) => {
                all_blocks.push(b);
            },
            Err(_) => {
                return Err(module);
            },
        }
    }
    let grow_on = rules.grow_cost() > 0;
    let add_thunk = grow_on && module_has_grow(&module);
    let ghost m = module;
    let Module { mut types, mut imports, mut functions, mut exports, mut elements, start, mut code } =
        module;

    let gas = (space - functions.len() as u32) as u32;
    let thunk = space + 1;
    let sig = types.len() as u32;
    types.push(FunctionType { params: single_i32(), result: None });
    imports.push(
        ImportEntry { module: "env".to_owned(), field: "gas".to_owned(), external: External::Function(sig) },
    );

    proof {
        assert forall|j: int| 0 <= j < code.len() implies calls_below(#[trigger] code@[j].code@, u32::MAX as int) by {
            assert(calls_below(code@[j].code@, u32::MAX as int));
        }
    }
    instrument_bodies(&mut code, all_blocks, rules, gas, grow_on, thunk);
    shift_exports(&mut exports, gas);
    shift_elements(&mut elements, gas);
    let start = match start {
        Some(f) => Some(
            if f >= gas {
                f + 1
            } else {
                f
            },
        ),
        None => None,
    };
    if add_thunk {
        add_grow_counter(&mut types, &mut functions, &mut code, rules, gas);
    }
    let out = Module { types, imports, functions, exports, elements, start, code };
    proof {
        reveal_strlit("env");
        reveal_strlit("gas");
    }
    Ok(out)
}

/// Inserts the metering charges into one body: divides it into metered
/// blocks under `rules` and charges each through `gas_func`, before the
/// instruction at which it starts. Fails, leaving
/// the body as it was, where `determine_metered_blocks` fails; in particular
/// where the rules forbid an instruction of the body.
pub fn inject_counter(instructions: &mut Vec<Instruction>, rules: &RuleSet, gas_func: u32) -> (r: Result<(), ()>)
    ensures
        (exists|i: int| 0 <= i < old(instructions).len() && rules.forbids(old(instructions)@[i])) ==> r is Err,
        r is Ok <==> metered_blocks(old(instructions)@, *rules) is Some,
        r is Ok ==> final(instructions)@ == metered(
            old(instructions)@,
            metered_blocks(old(instructions)@, *rules)->0,
            gas_func,
            0,
            0,
        ),
        r is Err ==> final(instructions)@ == old(instructions)@,
        r is Ok ==> exists|blocks: Seq<MeteredBlock>|
            #[trigger] blocks_well_formed(blocks, old(instructions).len() as int) && sum_costs(blocks)
                == total_charge(*rules, old(instructions)@) && (forall|k: int|
                0 <= k < blocks.len() ==> may_start_block(old(instructions)@, #[trigger] blocks[k].start_pos as int))
                && (forall|p: int|
                #[trigger] must_start_block(old(instructions)@, *rules, p) ==> exists|k: int|
                    0 <= k < blocks.len() && blocks[k].start_pos == p) && final(instructions)@ == metered(
                old(instructions)@,
                blocks,
                gas_func,
                0,
                0,
            ),
{
    let blocks = determine_metered_blocks(instructions, rules)?;
    let ghost b = blocks@;
    proof {
        lemma_well_formed_consumed(instructions@, b, 0, 0);
    }
    let inserted = insert_metering_calls(instructions, blocks, gas_func);
    assert(inserted is Ok);
    assert(blocks_well_formed(b, old(instructions).len() as int));
    Ok(())
}

} // verus!
