//! Rule sets: the static cost of each instruction, the instructions that are
//! forbidden, and the cost per page of `memory.grow`.
use vstd::prelude::*;
use crate::instruction::Instruction;

verus! {

/// The class of an instruction, by which a rule set prices it.
#[derive(Clone, Copy, Debug, PartialEq, Eq, Structural)]
pub enum InstructionType {
    Bit,
    Add,
    Mul,
    Div,
    Load,
    Store,
    Const,
    FloatConst,
    Local,
    Global,
    ControlFlow,
    IntegerComparison,
    FloatComparison,
    Float,
    Conversion,
    FloatConversion,
    Reinterpretation,
    Unreachable,
    Nop,
    CurrentMemory,
    GrowMemory,
}

/// How a rule set meters one class of instructions.
#[derive(Clone, Copy, Debug, PartialEq, Eq, Structural)]
pub enum Metering {
    /// The set's regular cost.
    Regular,
    /// The instruction may not appear.
    Forbidden,
    /// A fixed cost of its own.
    Fixed(u32),
}

/// The class of a numeric instruction without immediates, by its opcode byte.
pub open spec fn numeric_type(op: u8) -> InstructionType {
    if 0x45 <= op <= 0x5a {
        InstructionType::IntegerComparison
    } else if 0x5b <= op <= 0x66 {
        InstructionType::FloatComparison
    } else if (0x67 <= op <= 0x69) || (0x71 <= op <= 0x78) || (0x79 <= op <= 0x7b) || (0x83
        <= op <= 0x8a) {
        InstructionType::Bit
    } else if op == 0x6a || op == 0x6b || op == 0x7c || op == 0x7d {
        InstructionType::Add
    } else if op == 0x6c || op == 0x7e {
        InstructionType::Mul
    } else if (0x6d <= op <= 0x70) || (0x7f <= op <= 0x82) {
        InstructionType::Div
    } else if 0x8b <= op <= 0xa6 {
        InstructionType::Float
    } else if op == 0xa7 || op == 0xac || op == 0xad {
        InstructionType::Conversion
    } else if (0xa8 <= op <= 0xab) || (0xae <= op <= 0xbb) {
        InstructionType::FloatConversion
    } else if 0xbc <= op <= 0xbf {
        InstructionType::Reinterpretation
    } else {
        InstructionType::Nop
    }
}

/// The class of an instruction.
pub open spec fn instruction_type(i: Instruction) -> InstructionType {
    match i {
        Instruction::Unreachable => InstructionType::Unreachable,
        Instruction::Nop | Instruction::Drop | Instruction::Select => InstructionType::Nop,
        Instruction::Block(_) | Instruction::Loop(_) | Instruction::If(_) | Instruction::Else
        | Instruction::End | Instruction::Br(_) | Instruction::BrIf(_) | Instruction::BrTable(
            _,
            _,
        ) | Instruction::Return | Instruction::Call(_) | Instruction::CallIndirect(
            _,
            _,
        ) => InstructionType::ControlFlow,
        Instruction::GetLocal(_) | Instruction::SetLocal(_) | Instruction::TeeLocal(
            _,
        ) => InstructionType::Local,
        Instruction::GetGlobal(_) | Instruction::SetGlobal(_) => InstructionType::Global,
        Instruction::Load(_, _, _) => InstructionType::Load,
        Instruction::Store(_, _, _) => InstructionType::Store,
        Instruction::CurrentMemory(_) => InstructionType::CurrentMemory,
        Instruction::GrowMemory(_) => InstructionType::GrowMemory,
        Instruction::I32Const(_) | Instruction::I64Const(_) => InstructionType::Const,
        Instruction::F32Const(_) | Instruction::F64Const(_) => InstructionType::FloatConst,
        Instruction::I32Mul => InstructionType::Mul,
        Instruction::Numeric(op) => numeric_type(op),
    }
}

fn numeric_type_of(op: u8) -> (r: InstructionType)
    ensures
        r == numeric_type(op),
{
    if 0x45 <= op && op <= 0x5a {
        InstructionType::IntegerComparison
    } else if 0x5b <= op && op <= 0x66 {
        InstructionType::FloatComparison
    } else if (0x67 <= op && op <= 0x69) || (0x71 <= op && op <= 0x78) || (0x79 <= op && op
        <= 0x7b) || (0x83 <= op && op <= 0x8a) {
        InstructionType::Bit
    } else if op == 0x6a || op == 0x6b || op == 0x7c || op == 0x7d {
        InstructionType::Add
    } else if op == 0x6c || op == 0x7e {
        InstructionType::Mul
    } else if (0x6d <= op && op <= 0x70) || (0x7f <= op && op <= 0x82) {
        InstructionType::Div
    } else if 0x8b <= op && op <= 0xa6 {
        InstructionType::Float
    } else if op == 0xa7 || op == 0xac || op == 0xad {
        InstructionType::Conversion
    } else if (0xa8 <= op && op <= 0xab) || (0xae <= op && op <= 0xbb) {
        InstructionType::FloatConversion
    } else if 0xbc <= op && op <= 0xbf {
        InstructionType::Reinterpretation
    } else {
        InstructionType::Nop
    }
}

/// The class of an instruction.
pub fn type_of(i: &Instruction) -> (r: InstructionType)
    ensures
        r == instruction_type(*i),
{
    match i {
        Instruction::Unreachable => InstructionType::Unreachable,
        Instruction::Nop | Instruction::Drop | Instruction::Select => InstructionType::Nop,
        Instruction::Block(_) | Instruction::Loop(_) | Instruction::If(_) | Instruction::Else
        | Instruction::End | Instruction::Br(_) | Instruction::BrIf(_) | Instruction::BrTable(
            _,
            _,
        ) | Instruction::Return | Instruction::Call(_) | Instruction::CallIndirect(
            _,
            _,
        ) => InstructionType::ControlFlow,
        Instruction::GetLocal(_) | Instruction::SetLocal(_) | Instruction::TeeLocal(
            _,
        ) => InstructionType::Local,
        Instruction::GetGlobal(_) | Instruction::SetGlobal(_) => InstructionType::Global,
        Instruction::Load(_, _, _) => InstructionType::Load,
        Instruction::Store(_, _, _) => InstructionType::Store,
        Instruction::CurrentMemory(_) => InstructionType::CurrentMemory,
        Instruction::GrowMemory(_) => InstructionType::GrowMemory,
        Instruction::I32Const(_) | Instruction::I64Const(_) => InstructionType::Const,
        Instruction::F32Const(_) | Instruction::F64Const(_) => InstructionType::FloatConst,
        Instruction::I32Mul => InstructionType::Mul,
        Instruction::Numeric(op) => numeric_type_of(*op),
    }
}

/// A rule set: a regular cost per instruction, overrides per instruction
/// class (the last entry for a class wins), and the cost of each page that
/// `memory.grow` asks for (0 leaves `memory.grow` unmetered).
pub struct RuleSet {
    pub regular: u32,
    pub entries: Vec<(InstructionType, Metering)>,
    pub grow: u32,
}

/// How `entries` meter class `t`: the last entry for `t`, else `Regular`.
pub open spec fn metering_in(entries: Seq<(InstructionType, Metering)>, t: InstructionType) -> Metering
    decreases entries.len(),
{
    if entries.len() == 0 {
        Metering::Regular
    } else if entries.last().0 == t {
        entries.last().1
    } else {
        metering_in(entries.drop_last(), t)
    }
}

impl RuleSet {
    /// How this set meters class `t`.
    pub open spec fn metering(&self, t: InstructionType) -> Metering {
        metering_in(self.entries@, t)
    }

    /// Whether this set forbids instruction `i`.
    pub open spec fn forbids(&self, i: Instruction) -> bool {
        self.metering(instruction_type(i)) is Forbidden
    }

    /// The cost of an instruction that this set allows.
    pub open spec fn cost(&self, i: Instruction) -> u32 {
        match self.metering(instruction_type(i)) {
            Metering::Fixed(c) => c,
            _ => self.regular,
        }
    }

    /// A set with the given regular cost and overrides, and unmetered grows.
    pub fn new(regular: u32, entries: Vec<(InstructionType, Metering)>) -> (r: RuleSet)
        ensures
            r.regular == regular,
            r.entries@ == entries@,
            r.grow == 0,
    {
        RuleSet { regular, entries, grow: 0 }
    }

    /// The default set: every instruction costs 1, grows are unmetered.
    pub fn default() -> (r: RuleSet)
        ensures
            r.regular == 1,
            r.entries@.len() == 0,
            r.grow == 0,
    {
        RuleSet { regular: 1, entries: Vec::new(), grow: 0 }
    }

    /// This set, with `cost` charged per page that `memory.grow` asks for.
    pub fn with_grow_cost(self, cost: u32) -> (r: RuleSet)
        ensures
            r.regular == self.regular,
            r.entries@ == self.entries@,
            r.grow == cost,
    {
        RuleSet { grow: cost, ..self }
    }

    /// This set, with every floating-point instruction forbidden.
    pub fn with_forbidden_floats(self) -> (r: RuleSet)
        ensures
            r.regular == self.regular,
            r.grow == self.grow,
            r.entries@ == self.entries@ + seq![
                (InstructionType::Float, Metering::Forbidden),
                (InstructionType::FloatConst, Metering::Forbidden),
                (InstructionType::FloatComparison, Metering::Forbidden),
                (InstructionType::FloatConversion, Metering::Forbidden),
            ],
    {
        let mut entries = self.entries;
        entries.push((InstructionType::Float, Metering::Forbidden));
        entries.push((InstructionType::FloatConst, Metering::Forbidden));
        entries.push((InstructionType::FloatComparison, Metering::Forbidden));
        entries.push((InstructionType::FloatConversion, Metering::Forbidden));
        RuleSet { regular: self.regular, entries, grow: self.grow }
    }

    /// The cost per page requested by `memory.grow`.
    pub fn grow_cost(&self) -> (r: u32)
        ensures
            r == self.grow,
    {
        self.grow
    }

    /// How this set meters class `t`.
    pub fn metering_of(&self, t: InstructionType) -> (r: Metering)
        ensures
            r == self.metering(t),
    {
        let mut i: usize = self.entries.len();
        assert(self.entries@.subrange(0, i as int) =~= self.entries@);
        while i > 0
            invariant
                i <= self.entries@.len(),
                metering_in(self.entries@.subrange(0, i as int), t) == self.metering(t),
            decreases i,
        {
            let ghost prefix = self.entries@.subrange(0, i as int);
            assert(prefix.drop_last() =~= self.entries@.subrange(0, i - 1));
            let (c, m) = self.entries[i - 1];
            if c == t {
                return m;
            }
            i = i - 1;
        }
        Metering::Regular
    }

    /// The cost of an instruction, or `Err` where the set forbids it.
    pub fn process(&self, i: &Instruction) -> (r: Result<u32, ()>)
        ensures
            r is Err <==> self.forbids(*i),
            r is Ok ==> r->Ok_0 == self.cost(*i),
    {
        match self.metering_of(type_of(i)) {
            Metering::Forbidden => Err(()),
            Metering::Fixed(c) => Ok(c),
            Metering::Regular => Ok(self.regular),
        }
    }
}

} // verus!
