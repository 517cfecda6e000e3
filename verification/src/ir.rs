use crate::ast::BinaryOp;
use vstd::prelude::*;

verus! {

/// The width of an integer value: one bit or thirty-two.
#[derive(Debug, PartialEq, Eq, Clone, Copy)]
pub enum IrType {
    I1,
    I32,
}

/// A value that an instruction can take as an operand.
///
/// `Temp` is the result of the add or subtract instruction at `index` in the
/// body of the function at `function`; `Terminator` names a return
/// instruction in the same way; `Function` names a function of the module.
#[derive(Debug, PartialEq, Eq, Clone, Copy)]
pub enum Value {
    Int32(i32),
    Int1(bool),
    Temp { function: usize, index: usize, ty: IrType },
    Terminator { function: usize, index: usize },
    Function(usize),
}

/// An instruction of a basic block. `Ret` is the only terminator.
#[derive(Debug, PartialEq, Eq, Clone, Copy)]
pub enum Inst {
    Add { lhs: Value, rhs: Value },
    Sub { lhs: Value, rhs: Value },
    Ret { value: Value },
}

/// A function of the module: no formal parameters, one entry block.
#[derive(Debug, PartialEq, Eq)]
pub struct Function {
    pub name: String,
    pub return_type: IrType,
    pub body: Vec<Inst>,
}

/// The functions of one compilation, in the order in which they were added.
#[derive(Debug, PartialEq, Eq)]
pub struct Module {
    pub functions: Vec<Function>,
}

/// Why the construction of the module refused an operation.
#[derive(Debug, PartialEq, Eq, Clone, Copy)]
pub enum BackendFault {
    /// An instruction was to be emitted before any function was added.
    NoInsertionPoint,
    /// An instruction was to be appended behind a return.
    BlockTerminated,
    /// The operands of an add or subtract are not integers of one width.
    OperandTypeMismatch,
    /// The module already holds a function of that name.
    DuplicateFunction,
    /// A call has no instruction to stand for it.
    CallUnsupported,
}

/// What contracts say of a `Function`.
pub struct FunctionView {
    pub name: Seq<char>,
    pub return_type: IrType,
    pub body: Seq<Inst>,
}

impl View for Function {
    type V = FunctionView;

    open spec fn view(&self) -> FunctionView {
        FunctionView { name: self.name@, return_type: self.return_type, body: self.body@ }
    }
}

impl View for Module {
    type V = Seq<FunctionView>;

    open spec fn view(&self) -> Seq<FunctionView> {
        self.functions@.map_values(|f: Function| f@)
    }
}

/// The integer width of a value, if it is an integer.
pub open spec fn width_of(v: Value) -> Option<IrType> {
    match v {
        Value::Int32(_) => Some(IrType::I32),
        Value::Int1(_) => Some(IrType::I1),
        Value::Temp { ty, .. } => Some(ty),
        Value::Terminator { .. } => None,
        Value::Function(_) => None,
    }
}

/// A block is terminated once its last instruction is a return.
pub open spec fn terminated(body: Seq<Inst>) -> bool {
    body.len() > 0 && body.last() is Ret
}

/// Whether a function named `name` is among `fs`.
pub open spec fn has_function(fs: Seq<FunctionView>, name: Seq<char>) -> bool {
    exists|i: int| 0 <= i < fs.len() && #[trigger] fs[i].name == name
}

/// `fs` with `inst` appended to the body of its last function.
pub open spec fn with_inst(fs: Seq<FunctionView>, inst: Inst) -> Seq<FunctionView>
    recommends
        fs.len() > 0,
{
    fs.update(
        fs.len() - 1,
        FunctionView { body: fs.last().body.push(inst), ..fs.last() },
    )
}

/// What adding a function named `name` does: it is refused where the name
/// is taken; otherwise the new function, still empty, comes last and is where
/// instructions go from then on.
pub open spec fn add_function_spec(fs: Seq<FunctionView>, name: Seq<char>, ret: IrType) -> Result<
    (Value, Seq<FunctionView>),
    BackendFault,
> {
    if has_function(fs, name) {
        Err(BackendFault::DuplicateFunction)
    } else {
        Ok(
            (
                Value::Function(fs.len() as usize),
                fs.push(FunctionView { name, return_type: ret, body: Seq::empty() }),
            ),
        )
    }
}

/// The instruction that stands for an infix operator.
pub open spec fn binary_inst(op: BinaryOp, lhs: Value, rhs: Value) -> Inst {
    match op {
        BinaryOp::Plus => Inst::Add { lhs, rhs },
        BinaryOp::Minus => Inst::Sub { lhs, rhs },
    }
}

/// What emitting an add or a subtract does: the instruction goes to the end
/// of the last function's body, and its result is a new temporary of the
/// operands' width.
pub open spec fn build_binary_spec(
    fs: Seq<FunctionView>,
    op: BinaryOp,
    lhs: Value,
    rhs: Value,
) -> Result<(Value, Seq<FunctionView>), BackendFault> {
    if fs.len() == 0 {
        Err(BackendFault::NoInsertionPoint)
    } else if terminated(fs.last().body) {
        Err(BackendFault::BlockTerminated)
    } else if width_of(lhs) is None || width_of(lhs) != width_of(rhs) {
        Err(BackendFault::OperandTypeMismatch)
    } else {
        Ok(
            (
                Value::Temp {
                    function: (fs.len() - 1) as usize,
                    index: fs.last().body.len() as usize,
                    ty: width_of(lhs)->0,
                },
                with_inst(fs, binary_inst(op, lhs, rhs)),
            ),
        )
    }
}

/// What emitting a return does: it ends the last function's body.
pub open spec fn build_ret_spec(fs: Seq<FunctionView>, value: Value) -> Result<
    (Value, Seq<FunctionView>),
    BackendFault,
> {
    if fs.len() == 0 {
        Err(BackendFault::NoInsertionPoint)
    } else if terminated(fs.last().body) {
        Err(BackendFault::BlockTerminated)
    } else {
        Ok(
            (
                Value::Terminator {
                    function: (fs.len() - 1) as usize,
                    index: fs.last().body.len() as usize,
                },
                with_inst(fs, Inst::Ret { value }),
            ),
        )
    }
}

impl Module {
    /// A module without functions.
    pub fn new() -> (m: Module)
        ensures
            m@ == Seq::<FunctionView>::empty(),
    {
        let m = Module { functions: Vec::new() };
        assert(m@ =~= Seq::<FunctionView>::empty());
        m
    }

    /// Whether the module holds a function named `name`.
    pub fn has_function(&self, name: &String) -> (found: bool)
        ensures
            found == has_function(self@, name@),
    {
        let mut i: usize = 0;
        while i < self.functions.len()
            invariant
                i <= self.functions.len(),
                forall|j: int| 0 <= j < i ==> (#[trigger] self@[j]).name != name@,
            decreases self.functions.len() - i,
        {
            if self.functions[i].name == *name {
                assert(self@[i as int].name == name@);
                return true;
            }
            i += 1;
        }
        false
    }

    /// Adds an empty function named `name` that returns `ret`.
    pub fn add_function(&mut self, name: String, ret: IrType) -> (r: Result<Value, BackendFault>)
        ensures
            match add_function_spec(old(self)@, name@, ret) {
                Ok((v, fs)) => r == Ok::<Value, BackendFault>(v) && final(self)@ == fs,
                Err(e) => r == Err::<Value, BackendFault>(e) && final(self)@ == old(self)@,
            },
    {
        if self.has_function(&name) {
            return Err(BackendFault::DuplicateFunction);
        }
        let index = self.functions.len();
        self.functions.push(Function { name, return_type: ret, body: Vec::new() });
        assert(self@ =~= old(self)@.push(
            FunctionView { name: name@, return_type: ret, body: Seq::empty() },
        ));
        Ok(Value::Function(index))
    }

    fn append(&mut self, inst: Inst)
        requires
            old(self)@.len() > 0,
        ensures
            final(self)@ == with_inst(old(self)@, inst),
    {
        let mut f = self.functions.pop().unwrap();
        f.body.push(inst);
        self.functions.push(f);
        assert(self@ =~= with_inst(old(self)@, inst));
    }

    fn open_block(&self) -> (r: Result<usize, BackendFault>)
        ensures
            match r {
                Ok(n) => self@.len() > 0 && !terminated(self@.last().body) && n
                    == self@.last().body.len(),
                Err(e) => if self@.len() == 0 {
                    e == BackendFault::NoInsertionPoint
                } else {
                    terminated(self@.last().body) && e == BackendFault::BlockTerminated
                },
            },
    {
        let n = self.functions.len();
        if n == 0 {
            return Err(BackendFault::NoInsertionPoint);
        }
        let body = &self.functions[n - 1].body;
        assert(self@.last().body == body@);
        let len = body.len();
        if len > 0 {
            match body[len - 1] {
                Inst::Ret { .. } => {
                    return Err(BackendFault::BlockTerminated);
                },
                _ => {},
            }
        }
        Ok(len)
    }

    /// Emits `lhs + rhs` or `lhs - rhs` at the end of the last function.
    pub fn build_binary(&mut self, op: BinaryOp, lhs: Value, rhs: Value) -> (r: Result<
        Value,
        BackendFault,
    >)
        ensures
            match build_binary_spec(old(self)@, op, lhs, rhs) {
                Ok((v, fs)) => r == Ok::<Value, BackendFault>(v) && final(self)@ == fs,
                Err(e) => r == Err::<Value, BackendFault>(e) && final(self)@ == old(self)@,
            },
    {
        let index = match self.open_block() {
            Ok(n) => n,
            Err(e) => {
                return Err(e);
            },
        };
        let ty = match (width(lhs), width(rhs)) {
            (Some(IrType::I1), Some(IrType::I1)) => IrType::I1,
            (Some(IrType::I32), Some(IrType::I32)) => IrType::I32,
            _ => {
                return Err(BackendFault::OperandTypeMismatch);
            },
        };
        let inst = match op {
            BinaryOp::Plus => Inst::Add { lhs, rhs },
            BinaryOp::Minus => Inst::Sub { lhs, rhs },
        };
        let function = self.functions.len() - 1;
        self.append(inst);
        Ok(Value::Temp { function, index, ty })
    }

    /// Emits a return of `value`, which ends the last function's body.
    pub fn build_ret(&mut self, value: Value) -> (r: Result<Value, BackendFault>)
        ensures
            match build_ret_spec(old(self)@, value) {
                Ok((v, fs)) => r == Ok::<Value, BackendFault>(v) && final(self)@ == fs,
                Err(e) => r == Err::<Value, BackendFault>(e) && final(self)@ == old(self)@,
            },
    {
        let index = match self.open_block() {
            Ok(n) => n,
            Err(e) => {
                return Err(e);
            },
        };
        let function = self.functions.len() - 1;
        self.append(Inst::Ret { value });
        Ok(Value::Terminator { function, index })
    }
}

/// The integer width of a value, if it is an integer.
pub fn width(v: Value) -> (w: Option<IrType>)
    ensures
        w == width_of(v),
{
    match v {
        Value::Int32(_) => Some(IrType::I32),
        Value::Int1(_) => Some(IrType::I1),
        Value::Temp { ty, .. } => Some(ty),
        Value::Terminator { .. } => None,
        Value::Function(_) => None,
    }
}

} // verus!
