use wasm_gas::gas::inject_gas_counter;
use wasm_gas::instruction::BlockType;
use wasm_gas::instruction::Instruction as I;
use wasm_gas::instruction::ValueType;
use wasm_gas::module::{ElementSegment, ExportEntry, External, FuncBody, FunctionType, ImportEntry, Internal, Module};
use wasm_gas::rules::RuleSet;

const NR: BlockType = BlockType::NoResult;

fn module_with(bodies: Vec<Vec<I>>) -> Module {
    let mut m = Module {
        types: vec![FunctionType { params: vec![ValueType::I32], result: None }],
        imports: vec![],
        functions: vec![],
        exports: vec![],
        elements: vec![],
        start: None,
        code: vec![],
    };
    for b in bodies {
        m.functions.push(0);
        m.code.push(FuncBody { locals: vec![], code: b });
    }
    m
}

fn get_function_body(module: &Module, index: usize) -> Option<&[I]> {
    module.code.get(index).map(|b| &b.code[..])
}

fn injected_body(input: Vec<I>) -> Vec<I> {
    let m = inject_gas_counter(module_with(vec![input]), &RuleSet::default())
        .expect("inject_gas_counter call failed");
    get_function_body(&m, 0).expect("injected module must have a function body").to_vec()
}

#[test]
fn simple_grow() {
    let module = module_with(vec![vec![I::GetGlobal(0), I::GrowMemory(0), I::End]]);
    let injected_module = inject_gas_counter(module, &RuleSet::default().with_grow_cost(10000)).unwrap();
    assert_eq!(
        get_function_body(&injected_module, 0).unwrap(),
        &vec![I::I32Const(2), I::Call(0), I::GetGlobal(0), I::Call(2), I::End][..]
    );
    assert_eq!(
        get_function_body(&injected_module, 1).unwrap(),
        &vec![
            I::GetLocal(0),
            I::GetLocal(0),
            I::I32Const(10000),
            I::I32Mul,
            I::Call(0),
            I::GrowMemory(0),
            I::End,
        ][..]
    );
}

#[test]
fn grow_no_gas_no_track() {
    let module = module_with(vec![vec![I::GetGlobal(0), I::GrowMemory(0), I::End]]);
    let injected_module = inject_gas_counter(module, &RuleSet::default()).unwrap();
    assert_eq!(
        get_function_body(&injected_module, 0).unwrap(),
        &vec![I::I32Const(2), I::Call(0), I::GetGlobal(0), I::GrowMemory(0), I::End][..]
    );
    assert_eq!(injected_module.functions_space(), 2);
}

#[test]
fn call_index() {
    let module = module_with(vec![
        vec![I::End],
        vec![
            I::Call(0),
            I::If(NR),
            I::Call(0),
            I::Call(0),
            I::Call(0),
            I::Else,
            I::Call(0),
            I::Call(0),
            I::End,
            I::Call(0),
            I::End,
        ],
    ]);
    let injected_module = inject_gas_counter(module, &RuleSet::default()).unwrap();
    assert_eq!(
        get_function_body(&injected_module, 1).unwrap(),
        &vec![
            I::I32Const(3),
            I::Call(0),
            I::Call(1),
            I::If(NR),
            I::I32Const(3),
            I::Call(0),
            I::Call(1),
            I::Call(1),
            I::Call(1),
            I::Else,
            I::I32Const(2),
            I::Call(0),
            I::Call(1),
            I::Call(1),
            I::End,
            I::Call(1),
            I::End,
        ][..]
    );
}

#[test]
fn forbidden() {
    let module = module_with(vec![vec![I::F32Const(555555), I::End]]);
    let rules = RuleSet::default().with_forbidden_floats();
    if let Err(_) = inject_gas_counter(module, &rules) {
    } else {
        panic!("Should be error because of the forbidden operation")
    }
}

#[test]
fn simple() {
    assert_eq!(
        injected_body(vec![I::GetGlobal(0), I::End]),
        vec![I::I32Const(1), I::Call(0), I::GetGlobal(0), I::End]
    );
}

#[test]
fn nested() {
    let body = vec![
        I::GetGlobal(0),
        I::Block(NR),
        I::GetGlobal(0),
        I::GetGlobal(0),
        I::GetGlobal(0),
        I::End,
        I::GetGlobal(0),
        I::End,
    ];
    let mut expected = vec![I::I32Const(6), I::Call(0)];
    expected.extend(body.clone());
    assert_eq!(injected_body(body), expected);
}

#[test]
fn ifelse() {
    let gg = I::GetGlobal(0);
    let body = vec![
        gg.clone(), I::If(NR), gg.clone(), gg.clone(), gg.clone(), I::Else, gg.clone(), gg.clone(), I::End,
        gg.clone(), I::End,
    ];
    let expected = vec![
        I::I32Const(3), I::Call(0), gg.clone(), I::If(NR), I::I32Const(3), I::Call(0), gg.clone(),
        gg.clone(), gg.clone(), I::Else, I::I32Const(2), I::Call(0), gg.clone(), gg.clone(), I::End,
        gg.clone(), I::End,
    ];
    assert_eq!(injected_body(body), expected);
}

#[test]
fn branch_innermost() {
    let gg = I::GetGlobal(0);
    let body = vec![
        gg.clone(), I::Block(NR), gg.clone(), I::Drop, I::Br(0), gg.clone(), I::Drop, I::End, gg.clone(),
        I::End,
    ];
    let expected = vec![
        I::I32Const(6), I::Call(0), gg.clone(), I::Block(NR), gg.clone(), I::Drop, I::Br(0),
        I::I32Const(2), I::Call(0), gg.clone(), I::Drop, I::End, gg.clone(), I::End,
    ];
    assert_eq!(injected_body(body), expected);
}

#[test]
fn branch_outer_block() {
    let gg = I::GetGlobal(0);
    let body = vec![
        gg.clone(), I::Block(NR), gg.clone(), I::If(NR), gg.clone(), gg.clone(), I::Drop, I::BrIf(1),
        I::End, gg.clone(), I::Drop, I::End, gg.clone(), I::End,
    ];
    let expected = vec![
        I::I32Const(5), I::Call(0), gg.clone(), I::Block(NR), gg.clone(), I::If(NR), I::I32Const(4),
        I::Call(0), gg.clone(), gg.clone(), I::Drop, I::BrIf(1), I::End, I::I32Const(2), I::Call(0),
        gg.clone(), I::Drop, I::End, gg.clone(), I::End,
    ];
    assert_eq!(injected_body(body), expected);
}

#[test]
fn branch_outer_loop() {
    let gg = I::GetGlobal(0);
    let body = vec![
        gg.clone(), I::Loop(NR), gg.clone(), I::If(NR), gg.clone(), I::BrIf(0), I::Else, gg.clone(),
        gg.clone(), I::Drop, I::BrIf(1), I::End, gg.clone(), I::Drop, I::End, gg.clone(), I::End,
    ];
    let expected = vec![
        I::I32Const(3), I::Call(0), gg.clone(), I::Loop(NR), I::I32Const(4), I::Call(0), gg.clone(),
        I::If(NR), I::I32Const(2), I::Call(0), gg.clone(), I::BrIf(0), I::Else, I::I32Const(4),
        I::Call(0), gg.clone(), gg.clone(), I::Drop, I::BrIf(1), I::End, gg.clone(), I::Drop, I::End,
        gg.clone(), I::End,
    ];
    assert_eq!(injected_body(body), expected);
}

#[test]
fn return_from_func() {
    let gg = I::GetGlobal(0);
    let body = vec![gg.clone(), I::If(NR), I::Return, I::End, gg.clone(), I::End];
    let expected = vec![
        I::I32Const(2), I::Call(0), gg.clone(), I::If(NR), I::I32Const(1), I::Call(0), I::Return, I::End,
        I::I32Const(1), I::Call(0), gg.clone(), I::End,
    ];
    assert_eq!(injected_body(body), expected);
}

#[test]
fn branch_from_if_not_else() {
    let gg = I::GetGlobal(0);
    let body = vec![
        gg.clone(), I::Block(NR), gg.clone(), I::If(NR), I::Br(1), I::Else, I::Br(0), I::End, gg.clone(),
        I::Drop, I::End, gg.clone(), I::End,
    ];
    let expected = vec![
        I::I32Const(5), I::Call(0), gg.clone(), I::Block(NR), gg.clone(), I::If(NR), I::I32Const(1),
        I::Call(0), I::Br(1), I::Else, I::I32Const(1), I::Call(0), I::Br(0), I::End, I::I32Const(2),
        I::Call(0), gg.clone(), I::Drop, I::End, gg.clone(), I::End,
    ];
    assert_eq!(injected_body(body), expected);
}

#[test]
fn gas_import_is_appended() {
    let mut m = module_with(vec![vec![I::Call(0), I::Call(1), I::End]]);
    m.imports.push(ImportEntry { module: "env".to_string(), field: "mem".to_string(), external: External::Memory });
    m.imports.push(ImportEntry { module: "env".to_string(), field: "f".to_string(), external: External::Function(0) });
    let out = inject_gas_counter(m, &RuleSet::default()).unwrap();
    assert_eq!(out.imports.len(), 3);
    assert_eq!(out.imports[2].module, "env");
    assert_eq!(out.imports[2].field, "gas");
    assert_eq!(out.imports[2].external, External::Function(1));
    assert_eq!(out.types.len(), 2);
    assert_eq!(out.types[1], FunctionType { params: vec![ValueType::I32], result: None });
    // the import keeps index 0, the defined function moves from 1 to 2
    assert_eq!(out.code[0].code, vec![I::I32Const(2), I::Call(1), I::Call(0), I::Call(2), I::End]);
    assert_eq!(out.functions_space(), 3);
}

#[test]
fn exports_elements_and_start_are_shifted() {
    let mut m = module_with(vec![vec![I::End], vec![I::End]]);
    m.imports.push(ImportEntry { module: "env".to_string(), field: "f".to_string(), external: External::Function(0) });
    m.exports.push(ExportEntry { field: "a".to_string(), internal: Internal::Function(0) });
    m.exports.push(ExportEntry { field: "b".to_string(), internal: Internal::Function(2) });
    m.exports.push(ExportEntry { field: "m".to_string(), internal: Internal::Memory(0) });
    m.elements.push(ElementSegment { table: 0, offset: vec![I::I32Const(0), I::End], members: vec![0, 1, 2] });
    m.start = Some(1);
    let out = inject_gas_counter(m, &RuleSet::default()).unwrap();
    assert_eq!(out.exports[0].internal, Internal::Function(0));
    assert_eq!(out.exports[1].internal, Internal::Function(3));
    assert_eq!(out.exports[2].internal, Internal::Memory(0));
    assert_eq!(out.elements[0].members, vec![0, 2, 3]);
    assert_eq!(out.elements[0].offset, vec![I::I32Const(0), I::End]);
    assert_eq!(out.start, Some(2));
    // bodies of cost 0 get no charge
    assert_eq!(out.code[0].code, vec![I::End]);
}

#[test]
fn out_of_range_reference_is_shifted() {
    let m = module_with(vec![vec![I::Call(5), I::End]]);
    let out = inject_gas_counter(m, &RuleSet::default()).unwrap();
    assert_eq!(out.code[0].code, vec![I::I32Const(1), I::Call(0), I::Call(6), I::End]);
}

#[test]
fn unshiftable_reference_returns_original() {
    let m = module_with(vec![vec![I::Call(u32::MAX), I::End]]);
    let copy = m.clone();
    assert_eq!(inject_gas_counter(m, &RuleSet::default()), Err(copy));
}

#[test]
fn block_cost_beyond_32_bits_fails() {
    let rules = RuleSet::new(1u32 << 31, vec![]);
    let m = module_with(vec![vec![I::Nop, I::Nop, I::End]]);
    let copy = m.clone();
    assert_eq!(inject_gas_counter(m, &rules), Err(copy));
    let mut body = vec![I::Nop, I::Nop, I::End];
    assert_eq!(wasm_gas::gas::inject_counter(&mut body, &rules, 0), Err(()));
}

#[test]
fn block_cost_of_32_bits_is_charged_whole() {
    let rules = RuleSet::new(1u32 << 31, vec![]);
    let mut body = vec![I::Nop, I::End];
    assert_eq!(wasm_gas::gas::inject_counter(&mut body, &rules, 0), Ok(()));
    assert_eq!(body[0], I::I32Const((1u32 << 31) as i32));
    if let I::I32Const(v) = body[0] {
        assert_eq!(v as u32, 1u32 << 31);
    }
}

#[test]
fn forbidden_returns_original_module() {
    let m = module_with(vec![vec![I::GetGlobal(0), I::End], vec![I::F64Const(1), I::End]]);
    let copy = m.clone();
    let rules = RuleSet::default().with_forbidden_floats();
    assert_eq!(inject_gas_counter(m, &rules), Err(copy));
}

#[test]
fn unbalanced_end_fails() {
    let m = module_with(vec![vec![I::End, I::End]]);
    assert!(inject_gas_counter(m, &RuleSet::default()).is_err());
}

#[test]
fn unbalanced_else_after_body_fails() {
    let m = module_with(vec![vec![I::End, I::Else]]);
    assert!(inject_gas_counter(m, &RuleSet::default()).is_err());
}

#[test]
fn frame_left_open_fails() {
    let m = module_with(vec![vec![I::Block(NR), I::Nop]]);
    assert!(inject_gas_counter(m, &RuleSet::default()).is_err());
}

#[test]
fn branch_too_deep_fails() {
    let m = module_with(vec![vec![I::Block(NR), I::Br(2), I::End, I::End]]);
    assert!(inject_gas_counter(m, &RuleSet::default()).is_err());
    let t = module_with(vec![vec![I::BrTable(vec![0, 3], 0), I::End]]);
    assert!(inject_gas_counter(t, &RuleSet::default()).is_err());
}

#[test]
fn br_table_and_unreachable_end_blocks() {
    let body = vec![
        I::Block(NR), I::Nop, I::BrTable(vec![0, 1], 0), I::Nop, I::End, I::Unreachable, I::Nop, I::End,
    ];
    assert_eq!(
        injected_body(body),
        vec![
            I::I32Const(3), I::Call(0), I::Block(NR), I::Nop, I::BrTable(vec![0, 1], 0), I::I32Const(1),
            I::Call(0), I::Nop, I::End, I::I32Const(1), I::Call(0), I::Unreachable, I::I32Const(1), I::Call(0),
            I::Nop, I::End,
        ]
    );
}

#[test]
fn grow_block_charge_precedes_thunk_call() {
    let m = module_with(vec![vec![I::Block(NR), I::End, I::GrowMemory(0), I::End]]);
    let out = inject_gas_counter(m, &RuleSet::default().with_grow_cost(3)).unwrap();
    assert_eq!(out.code[0].code, vec![I::I32Const(2), I::Call(0), I::Block(NR), I::End, I::Call(2), I::End]);
    assert_eq!(out.functions, vec![0, 2]);
    assert_eq!(out.types[2], FunctionType { params: vec![ValueType::I32], result: Some(ValueType::I32) });
    let grows: usize = out.code.iter().map(|b| b.code.iter().filter(|i| matches!(i, I::GrowMemory(_))).count()).sum();
    assert_eq!(grows, 1);
}

#[test]
fn grow_cost_without_grow_adds_no_thunk() {
    let m = module_with(vec![vec![I::Nop, I::End]]);
    let out = inject_gas_counter(m, &RuleSet::default().with_grow_cost(7)).unwrap();
    assert_eq!(out.code.len(), 1);
    assert_eq!(out.types.len(), 2);
}

#[test]
fn charge_count_matches_blocks() {
    let body = vec![
        I::GetGlobal(0), I::If(NR), I::Return, I::End, I::GetGlobal(0), I::End,
    ];
    let out = injected_body(body);
    let charges = out.iter().filter(|i| **i == I::Call(0)).count();
    assert_eq!(charges, 3);
}

#[test]
fn inject_counter_single_body() {
    let mut body = vec![I::Nop, I::Nop, I::End];
    assert_eq!(wasm_gas::gas::inject_counter(&mut body, &RuleSet::default(), 7), Ok(()));
    assert_eq!(body, vec![I::I32Const(2), I::Call(7), I::Nop, I::Nop, I::End]);
    let mut bad = vec![I::F64Const(0), I::End];
    assert_eq!(wasm_gas::gas::inject_counter(&mut bad, &RuleSet::default().with_forbidden_floats(), 7), Err(()));
    assert_eq!(bad, vec![I::F64Const(0), I::End]);
}

#[test]
fn grow_with_nonzero_reserved_byte_is_left_alone() {
    let m = module_with(vec![vec![I::Nop, I::GrowMemory(1), I::End]]);
    let out = inject_gas_counter(m, &RuleSet::default().with_grow_cost(5)).unwrap();
    assert_eq!(out.code.len(), 1);
    assert_eq!(out.code[0].code, vec![I::I32Const(2), I::Call(0), I::Nop, I::GrowMemory(1), I::End]);
}

#[test]
fn instruction_after_final_end_fails() {
    let m = module_with(vec![vec![I::End, I::Nop]]);
    assert!(inject_gas_counter(m, &RuleSet::default()).is_err());
}
