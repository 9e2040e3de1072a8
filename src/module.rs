//! The parts of a Wasm module that metering reads or changes.
use vstd::prelude::*;
use crate::instruction::{Instruction, ValueType};
use crate::inject::calls_below;

verus! {

/// A function signature.
#[derive(Clone, Debug, PartialEq, Eq)]
pub struct FunctionType {
    pub params: Vec<ValueType>,
    pub result: Option<ValueType>,
}

/// What an import brings in; a function import names its signature.
#[derive(Clone, Copy, Debug, PartialEq, Eq, Structural)]
pub enum External {
    Function(u32),
    Table,
    Memory,
    Global,
}

#[derive(Clone, Debug, PartialEq, Eq)]
pub struct ImportEntry {
    pub module: String,
    pub field: String,
    pub external: External,
}

/// What an export refers to, by index in its space.
#[derive(Clone, Copy, Debug, PartialEq, Eq, Structural)]
pub enum Internal {
    Function(u32),
    Table(u32),
    Memory(u32),
    Global(u32),
}

#[derive(Clone, Debug, PartialEq, Eq)]
pub struct ExportEntry {
    pub field: String,
    pub internal: Internal,
}

/// A table initializer: the functions it places, from the offset on.
#[derive(Clone, Debug, PartialEq, Eq)]
pub struct ElementSegment {
    pub table: u32,
    pub offset: Vec<Instruction>,
    pub members: Vec<u32>,
}

/// The locals (count and type per group) and code of a defined function.
#[derive(Clone, Debug, PartialEq, Eq)]
pub struct FuncBody {
    pub locals: Vec<(u32, ValueType)>,
    pub code: Vec<Instruction>,
}

/// The parts of a Wasm module that gas metering reads or changes.
/// `functions` holds the signature index of each defined function, and
/// `code` its body, in the same order.
#[derive(Clone, Debug, PartialEq, Eq)]
pub struct Module {
    pub types: Vec<FunctionType>,
    pub imports: Vec<ImportEntry>,
    pub functions: Vec<u32>,
    pub exports: Vec<ExportEntry>,
    pub elements: Vec<ElementSegment>,
    pub start: Option<u32>,
    pub code: Vec<FuncBody>,
}

/// The number of function imports among `imports`.
pub open spec fn function_imports(imports: Seq<ImportEntry>) -> nat
    decreases imports.len(),
{
    if imports.len() == 0 {
        0
    } else {
        function_imports(imports.drop_last()) + if imports.last().external is Function {
            1nat
        } else {
            0nat
        }
    }
}

impl Module {
    /// The size of the function index space: imported, then defined functions.
    pub open spec fn function_space(&self) -> nat {
        function_imports(self.imports@) + self.functions@.len()
    }

    /// Every function index that the module refers to is below `bound`.
    pub open spec fn references_below(&self, bound: int) -> bool {
        &&& forall|j: int| 0 <= j < self.code.len() ==> calls_below(#[trigger] self.code@[j].code@, bound)
        &&& forall|j: int|
            0 <= j < self.exports.len() ==> (#[trigger] self.exports@[j].internal matches Internal::Function(f)
                ==> f < bound)
        &&& forall|j: int, p: int|
            0 <= j < self.elements.len() && 0 <= p < self.elements@[j].members.len()
                ==> #[trigger] self.elements@[j].members@[p] < bound
        &&& (self.start matches Some(f) ==> f < bound)
    }

    /// The number of function imports.
    pub fn function_import_count(&self) -> (r: usize)
        ensures
            r == function_imports(self.imports@),
    {
        let mut count: usize = 0;
        for j in 0..self.imports.len()
            invariant
                count == function_imports(self.imports@.subrange(0, j as int)),
                count <= j,
        {
            assert(self.imports@.subrange(0, j + 1).drop_last() =~= self.imports@.subrange(0, j as int));
            if let External::Function(_) = self.imports[j].external {
                count = count + 1;
            }
        }
        assert(self.imports@.subrange(0, self.imports.len() as int) =~= self.imports@);
        count
    }

    /// The size of the function index space, saturated at `usize::MAX`.
    pub fn functions_space(&self) -> (r: usize)
        ensures
            r == if self.function_space() <= usize::MAX {
                self.function_space()
            } else {
                usize::MAX as nat
            },
    {
        self.function_import_count().saturating_add(self.functions.len())
    }

    /// Whether every function index that the module refers to is below `bound`.
    pub fn references_within(&self, bound: u32) -> (r: bool)
        ensures
            r == self.references_below(bound as int),
    {
        for j in 0..self.code.len()
            invariant
                forall|q: int| 0 <= q < j ==> calls_below(#[trigger] self.code@[q].code@, bound as int),
        {
            let body = &self.code[j].code;
            for p in 0..body.len()
                invariant
                    j < self.code@.len(),
                    body@ == self.code@[j as int].code@,
                    forall|q: int| 0 <= q < p ==> (#[trigger] body@[q] matches Instruction::Call(f) ==> f < bound),
            {
                if let Instruction::Call(f) = body[p] {
                    if f >= bound {
                        assert(body@[p as int] == Instruction::Call(f));
                        assert(!calls_below(self.code@[j as int].code@, bound as int));
                        return false;
                    }
                }
            }
        }
        for j in 0..self.exports.len()
            invariant
                forall|q: int|
                    0 <= q < j ==> (#[trigger] self.exports@[q].internal matches Internal::Function(f) ==> f < bound),
        {
            if let Internal::Function(f) = self.exports[j].internal {
                if f >= bound {
                    return false;
                }
            }
        }
        for j in 0..self.elements.len()
            invariant
                forall|q: int, p: int|
                    0 <= q < j && 0 <= p < self.elements@[q].members.len() ==> #[trigger] self.elements@[q].members@[p]
                        < bound,
        {
            let members = &self.elements[j].members;
            for p in 0..members.len()
                invariant
                    j < self.elements@.len(),
                    members@ == self.elements@[j as int].members@,
                    forall|q: int| 0 <= q < p ==> #[trigger] members@[q] < bound,
            {
                if members[p] >= bound {
                    assert(self.elements@[j as int].members@[p as int] >= bound);
                    return false;
                }
            }
        }
        if let Some(f) = self.start {
            if f >= bound {
                return false;
            }
        }
        true
    }
}

} // verus!
