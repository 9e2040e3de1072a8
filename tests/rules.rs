use wasm_gas::instruction::Instruction as I;
use wasm_gas::metering::{determine_metered_blocks, MeteredBlock};
use wasm_gas::inject::{inject_grow_counter, insert_metering_calls, update_call_index};
use wasm_gas::rules::{type_of, InstructionType, Metering, RuleSet};

#[test]
fn default_costs_one() {
    let r = RuleSet::default();
    assert_eq!(r.process(&I::GetGlobal(0)), Ok(1));
    assert_eq!(r.process(&I::F32Const(0)), Ok(1));
    assert_eq!(r.grow_cost(), 0);
}

#[test]
fn floats_forbidden() {
    let r = RuleSet::default().with_forbidden_floats();
    assert_eq!(r.process(&I::F32Const(0)), Err(()));
    assert_eq!(r.process(&I::Numeric(0x92)), Err(()));
    assert_eq!(r.process(&I::Numeric(0x5b)), Err(()));
    assert_eq!(r.process(&I::Numeric(0xa8)), Err(()));
    assert_eq!(r.process(&I::Numeric(0x6a)), Ok(1));
    assert_eq!(r.process(&I::Numeric(0xbc)), Ok(1));
}

#[test]
fn later_entry_wins() {
    let r = RuleSet::new(
        2,
        vec![(InstructionType::Mul, Metering::Fixed(9)), (InstructionType::Mul, Metering::Fixed(4))],
    );
    assert_eq!(r.process(&I::I32Mul), Ok(4));
    assert_eq!(r.process(&I::Numeric(0x7e)), Ok(4));
    assert_eq!(r.process(&I::Nop), Ok(2));
}

#[test]
fn classes() {
    assert_eq!(type_of(&I::Call(3)), InstructionType::ControlFlow);
    assert_eq!(type_of(&I::GrowMemory(0)), InstructionType::GrowMemory);
    assert_eq!(type_of(&I::Numeric(0x45)), InstructionType::IntegerComparison);
    assert_eq!(type_of(&I::Numeric(0x6d)), InstructionType::Div);
    assert_eq!(type_of(&I::Numeric(0xa7)), InstructionType::Conversion);
    assert_eq!(type_of(&I::Load(0x28, 2, 0)), InstructionType::Load);
}

#[test]
fn fixed_costs_are_summed() {
    let r = RuleSet::new(1, vec![(InstructionType::Global, Metering::Fixed(10))]);
    let body = vec![I::GetGlobal(0), I::Nop, I::End];
    assert_eq!(determine_metered_blocks(&body, &r), Ok(vec![MeteredBlock { start_pos: 0, cost: 11 }]));
}

#[test]
fn metered_blocks_of_loop() {
    let body = vec![I::Nop, I::Loop(wasm_gas::instruction::BlockType::NoResult), I::Nop, I::Br(0), I::End, I::End];
    assert_eq!(
        determine_metered_blocks(&body, &RuleSet::default()),
        Ok(vec![MeteredBlock { start_pos: 0, cost: 2 }, MeteredBlock { start_pos: 2, cost: 2 }])
    );
}

#[test]
fn unused_block_is_an_error() {
    let mut body = vec![I::Nop, I::End];
    let r = insert_metering_calls(&mut body, vec![MeteredBlock { start_pos: 5, cost: 1 }], 0);
    assert_eq!(r, Err(()));
    let mut body = vec![I::Nop, I::End];
    let r = insert_metering_calls(&mut body, vec![MeteredBlock { start_pos: 1, cost: 7 }], 4);
    assert_eq!(r, Ok(()));
    assert_eq!(body, vec![I::Nop, I::I32Const(7), I::Call(4), I::End]);
}

#[test]
fn call_indices_shift() {
    let mut body = vec![I::Call(0), I::Call(1), I::Call(5), I::CallIndirect(3, 0), I::End];
    update_call_index(&mut body, 1);
    assert_eq!(body, vec![I::Call(0), I::Call(2), I::Call(6), I::CallIndirect(3, 0), I::End]);
}

#[test]
fn grows_are_replaced_and_counted() {
    let mut body = vec![I::GrowMemory(0), I::Nop, I::GrowMemory(0), I::End];
    assert_eq!(inject_grow_counter(&mut body, 9), 2);
    assert_eq!(body, vec![I::Call(9), I::Nop, I::Call(9), I::End]);
}
