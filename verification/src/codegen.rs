use crate::ast::{nodes_view, BinaryOp, Node, NodeView, Type, UnaryOp};
use crate::ir::{
    add_function_spec, build_binary_spec, build_ret_spec, terminated, with_inst, BackendFault,
    FunctionView, Inst, IrType, Module, Value,
};
use crate::symbols::SymbolTable;
use vstd::prelude::*;

verus! {

/// Why lowering stopped. Each is fatal for the whole compilation.
#[derive(Debug, PartialEq, Eq)]
pub enum LowerError {
    /// A name was read that nothing has bound.
    UnresolvedReference(String),
    /// The construction of the module refused an operation.
    BackendConstruction(BackendFault),
}

/// A `LowerError`, with the name in it as a sequence of characters.
pub enum LowerErrorView {
    UnresolvedReference(Seq<char>),
    BackendConstruction(BackendFault),
}

impl View for LowerError {
    type V = LowerErrorView;

    open spec fn view(&self) -> LowerErrorView {
        match self {
            LowerError::UnresolvedReference(name) => LowerErrorView::UnresolvedReference(name@),
            LowerError::BackendConstruction(fault) => LowerErrorView::BackendConstruction(*fault),
        }
    }
}

/// What lowering works on: the module under construction and the names
/// bound so far.
pub struct Lowering {
    pub module: Module,
    pub symbols: SymbolTable,
}

/// What contracts say of a `Lowering`: the functions built so far and the
/// map from names to values.
pub struct LoweringView {
    pub functions: Seq<FunctionView>,
    pub symbols: Map<Seq<char>, Value>,
}

impl View for Lowering {
    type V = LoweringView;

    open spec fn view(&self) -> LoweringView {
        LoweringView { functions: self.module@, symbols: self.symbols@ }
    }
}

/// The integer width that stands for a declared type.
pub open spec fn ir_type_of(t: Type) -> IrType {
    match t {
        Type::Bool => IrType::I1,
        Type::Int => IrType::I32,
    }
}

/// The outcome of one construction step, as an outcome of lowering.
pub open spec fn built(
    step: Result<(Value, Seq<FunctionView>), BackendFault>,
    st: LoweringView,
) -> (Result<Value, LowerErrorView>, LoweringView) {
    match step {
        Ok((v, fs)) => (Ok(v), LoweringView { functions: fs, ..st }),
        Err(fault) => (Err(LowerErrorView::BackendConstruction(fault)), st),
    }
}

/// What lowering `node` in state `st` yields, and the state it leaves.
///
/// A literal is a constant. A reference is the value its name is bound to.
/// An assignment lowers its value, binds the name to it and yields it. An
/// infix expression lowers its left operand, then its right one, and emits
/// one instruction. A negation subtracts its operand from the constant zero.
/// A return lowers its operand and ends the block with it. A function is
/// added to the module, empty, and its statements are lowered into it in
/// order. The first failure ends the lowering, with the state as it then is.
pub open spec fn lower(node: NodeView, st: LoweringView) -> (
    Result<Value, LowerErrorView>,
    LoweringView,
)
    decreases node, 0nat,
{
    match node {
        NodeView::Int(v) => (Ok(Value::Int32(v)), st),
        NodeView::Bool(b) => (Ok(Value::Int1(b)), st),
        NodeView::Ref(name) => if st.symbols.contains_key(name) {
            (Ok(st.symbols[name]), st)
        } else {
            (Err(LowerErrorView::UnresolvedReference(name)), st)
        },
        NodeView::FnRef(_, _) => (
            Err(LowerErrorView::BackendConstruction(BackendFault::CallUnsupported)),
            st,
        ),
        NodeView::Assign(name, value) => {
            let (r, s) = lower(*value, st);
            match r {
                Ok(v) => (Ok(v), LoweringView { symbols: s.symbols.insert(name, v), ..s }),
                Err(e) => (Err(e), s),
            }
        },
        NodeView::BinaryExpr { op, lhs, rhs } => {
            let (rl, s1) = lower(*lhs, st);
            match rl {
                Err(e) => (Err(e), s1),
                Ok(l) => {
                    let (rr, s2) = lower(*rhs, s1);
                    match rr {
                        Err(e) => (Err(e), s2),
                        Ok(r) => built(build_binary_spec(s2.functions, op, l, r), s2),
                    }
                },
            }
        },
        NodeView::UnaryExpr { op: UnaryOp::Minus, child } => {
            let (r, s) = lower(*child, st);
            match r {
                Err(e) => (Err(e), s),
                Ok(v) => built(
                    build_binary_spec(s.functions, BinaryOp::Minus, Value::Int32(0), v),
                    s,
                ),
            }
        },
        NodeView::UnaryExpr { op: UnaryOp::Return, child } => {
            let (r, s) = lower(*child, st);
            match r {
                Err(e) => (Err(e), s),
                Ok(v) => built(build_ret_spec(s.functions, v), s),
            }
        },
        NodeView::Function { name, arguments, return_value, children } => {
            match add_function_spec(st.functions, name, ir_type_of(return_value)) {
                Err(fault) => (Err(LowerErrorView::BackendConstruction(fault)), st),
                Ok((f, fs)) => {
                    let (failure, s) = lower_all(
                        children,
                        0,
                        LoweringView { functions: fs, ..st },
                    );
                    match failure {
                        Some(e) => (Err(e), s),
                        None => (Ok(f), s),
                    }
                },
            }
        },
    }
}

/// Lowers `nodes[from..]` in order, each in the state the one before left.
/// Yields the first failure, if any, and the state at the end.
pub open spec fn lower_all(nodes: Seq<NodeView>, from: nat, st: LoweringView) -> (
    Option<LowerErrorView>,
    LoweringView,
)
    decreases nodes, nodes.len() - from,
{
    if from >= nodes.len() {
        (None, st)
    } else {
        let (r, s) = lower(nodes[from as int], st);
        match r {
            Err(e) => (Some(e), s),
            Ok(_) => lower_all(nodes, from + 1, s),
        }
    }
}

/// The state in which a compilation starts: no function, no name.
pub open spec fn initial() -> LoweringView {
    LoweringView { functions: Seq::empty(), symbols: Map::empty() }
}

/// What compiling a program yields: its module, or the first failure.
pub open spec fn compile(program: Seq<NodeView>) -> Result<Seq<FunctionView>, LowerErrorView> {
    let (failure, s) = lower_all(program, 0, initial());
    match failure {
        Some(e) => Err(e),
        None => Ok(s.functions),
    }
}

impl Lowering {
    /// The names of the table are distinct.
    pub open spec fn wf(self) -> bool {
        self.symbols.wf()
    }

    /// The state in which a compilation starts.
    pub fn new() -> (st: Lowering)
        ensures
            st.wf(),
            st@ == initial(),
    {
        Lowering { module: Module::new(), symbols: SymbolTable::new() }
    }
}

/// The outcome that `lower` gives, as the executable code returns it.
pub open spec fn same_outcome(
    r: Result<Value, LowerError>,
    m: Result<Value, LowerErrorView>,
) -> bool {
    match (r, m) {
        (Ok(v), Ok(w)) => v == w,
        (Err(e), Err(f)) => e@ == f,
        _ => false,
    }
}

/// The integer width that stands for a declared type.
pub fn ir_type(t: Type) -> (w: IrType)
    ensures
        w == ir_type_of(t),
{
    match t {
        Type::Bool => IrType::I1,
        Type::Int => IrType::I32,
    }
}

fn backend(step: Result<Value, BackendFault>) -> (r: Result<Value, LowerError>)
    ensures
        match step {
            Ok(v) => r == Ok::<Value, LowerError>(v),
            Err(fault) => r == Err::<Value, LowerError>(LowerError::BackendConstruction(fault)),
        },
{
    match step {
        Ok(v) => Ok(v),
        Err(fault) => Err(LowerError::BackendConstruction(fault)),
    }
}

/// Lowers one node into `st`, by the rules that `lower` states.
pub fn codegen_expr(node: &Node, st: &mut Lowering) -> (r: Result<Value, LowerError>)
    requires
        old(st).wf(),
    ensures
        final(st).wf(),
        same_outcome(r, lower(node@, old(st)@).0),
        final(st)@ == lower(node@, old(st)@).1,
    decreases node,
{
    match node {
        Node::Int(v) => Ok(Value::Int32(*v)),
        Node::Bool(b) => Ok(Value::Int1(*b)),
        Node::Ref(name) => match st.symbols.get(name) {
            Some(v) => Ok(v),
            None => Err(LowerError::UnresolvedReference(name.clone())),
        },
        Node::FnRef(_, _) => Err(LowerError::BackendConstruction(BackendFault::CallUnsupported)),
        Node::Assign(name, value) => {
            let v = codegen_expr(value, st)?;
            st.symbols.insert(name.clone(), v);
            Ok(v)
        },
        Node::BinaryExpr { op, lhs, rhs } => {
            let l = codegen_expr(lhs, st)?;
            let r = codegen_expr(rhs, st)?;
            backend(st.module.build_binary(*op, l, r))
        },
        Node::UnaryExpr { op: UnaryOp::Minus, child } => {
            let v = codegen_expr(child, st)?;
            backend(st.module.build_binary(BinaryOp::Minus, Value::Int32(0), v))
        },
        Node::UnaryExpr { op: UnaryOp::Return, child } => {
            let v = codegen_expr(child, st)?;
            backend(st.module.build_ret(v))
        },
        Node::Function { name, arguments: _, return_value, children } => {
            let f = backend(st.module.add_function(name.clone(), ir_type(*return_value)))?;
            let ghost whole = lower_all(node@->children, 0, st@);
            let mut i: usize = 0;
            while i < children.len()
                invariant
                    i <= children.len(),
                    st.wf(),
                    node@ is Function,
                    lower(node@, old(st)@) == (match whole.0 {
                        Some(e) => (Err::<Value, LowerErrorView>(e), whole.1),
                        None => (Ok::<Value, LowerErrorView>(f), whole.1),
                    }),
                    (match *node {
                        Node::Function { children: c, .. } => c == *children,
                        _ => false,
                    }),
                    node@->children.len() == children.len(),
                    forall|j: int| 0 <= j < children.len() ==> node@->children[j] == children[j]@,
                    lower_all(node@->children, i as nat, st@) == whole,
                decreases children.len() - i,
            {
                let ghost before = st@;
                assert(lower_all(node@->children, i as nat, before) == match lower(
                    node@->children[i as int],
                    before,
                ).0 {
                    Err(e) => (Some(e), lower(node@->children[i as int], before).1),
                    Ok(_) => lower_all(
                        node@->children,
                        (i + 1) as nat,
                        lower(node@->children[i as int], before).1,
                    ),
                });
                match codegen_expr(&children[i], st) {
                    Ok(_) => {},
                    Err(e) => {
                        return Err(e);
                    },
                }
                i += 1;
            }
            Ok(f)
        },
    }
}

/// Compiles a program: lowers its nodes in order, with one table of names
/// for all of them, and hands out the module, or the first failure.
pub fn codegen(input: Vec<Node>) -> (r: Result<Module, LowerError>)
    ensures
        match (r, compile(nodes_view(input@))) {
            (Ok(m), Ok(fs)) => m@ == fs,
            (Err(e), Err(f)) => e@ == f,
            _ => false,
        },
{
    let ghost program = nodes_view(input@);
    let mut st = Lowering::new();
    let mut i: usize = 0;
    while i < input.len()
        invariant
            i <= input.len(),
            st.wf(),
            program == nodes_view(input@),
            lower_all(program, i as nat, st@) == lower_all(program, 0, initial()),
        decreases input.len() - i,
    {
        let ghost before = st@;
        assert(lower_all(program, i as nat, before) == match lower(program[i as int], before).0 {
            Err(e) => (Some(e), lower(program[i as int], before).1),
            Ok(_) => lower_all(program, (i + 1) as nat, lower(program[i as int], before).1),
        });
        match codegen_expr(&input[i], &mut st) {
            Ok(_) => {},
            Err(e) => {
                return Err(e);
            },
        }
        i += 1;
    }
    Ok(st.module)
}

/// Lowering `return a + b` for two literals, into a function whose block is
/// still open, appends exactly two instructions to that block: the addition
/// of the constants `a` and `b`, then a return of the addition's result.
/// Nothing else changes.
pub proof fn lemma_return_of_sum(a: i32, b: i32, st: LoweringView)
    requires
        st.functions.len() > 0,
        !terminated(st.functions.last().body),
    ensures
        ({
            let node = NodeView::UnaryExpr {
                op: UnaryOp::Return,
                child: Box::new(
                    NodeView::BinaryExpr {
                        op: BinaryOp::Plus,
                        lhs: Box::new(NodeView::Int(a)),
                        rhs: Box::new(NodeView::Int(b)),
                    },
                ),
            };
            let last = st.functions.len() - 1;
            let body = st.functions.last().body;
            let sum = Value::Temp {
                function: last as usize,
                index: body.len() as usize,
                ty: IrType::I32,
            };
            let (r, s) = lower(node, st);
            &&& r == Ok::<Value, LowerErrorView>(
                Value::Terminator { function: last as usize, index: (body.len() + 1) as usize },
            )
            &&& s.symbols == st.symbols
            &&& s.functions == st.functions.update(
                last,
                FunctionView {
                    body: body + seq![
                        Inst::Add { lhs: Value::Int32(a), rhs: Value::Int32(b) },
                        Inst::Ret { value: sum },
                    ],
                    ..st.functions.last()
                },
            )
        }),
{
    let last = st.functions.len() - 1;
    let body = st.functions.last().body;
    let add = Inst::Add { lhs: Value::Int32(a), rhs: Value::Int32(b) };
    let sum = Value::Temp { function: last as usize, index: body.len() as usize, ty: IrType::I32 };
    let sum_node = NodeView::BinaryExpr {
        op: BinaryOp::Plus,
        lhs: Box::new(NodeView::Int(a)),
        rhs: Box::new(NodeView::Int(b)),
    };
    let node = NodeView::UnaryExpr { op: UnaryOp::Return, child: Box::new(sum_node) };
    reveal_with_fuel(lower, 3);
    let (r1, s1) = lower(sum_node, st);
    assert(r1 == Ok::<Value, LowerErrorView>(sum));
    assert(s1.functions == with_inst(st.functions, add));
    assert(s1.functions.last().body == body.push(add));
    assert(!terminated(s1.functions.last().body));
    let (r, s) = lower(node, st);
    assert(s.functions == with_inst(s1.functions, Inst::Ret { value: sum }));
    assert(body.push(add).push(Inst::Ret { value: sum }) =~= body + seq![
        add,
        Inst::Ret { value: sum },
    ]);
    assert(s.functions =~= st.functions.update(
        last,
        FunctionView {
            body: body + seq![add, Inst::Ret { value: sum }],
            ..st.functions.last()
        },
    ));
}

/// A negation lowers as the subtraction of its operand from the literal
/// zero does: to the same outcome and the same state.
pub proof fn lemma_negation_is_subtraction_from_zero(x: NodeView, st: LoweringView)
    ensures
        lower(NodeView::UnaryExpr { op: UnaryOp::Minus, child: Box::new(x) }, st) == lower(
            NodeView::BinaryExpr {
                op: BinaryOp::Minus,
                lhs: Box::new(NodeView::Int(0)),
                rhs: Box::new(x),
            },
            st,
        ),
{
    reveal_with_fuel(lower, 2);
}

/// A name bound while one function was lowered is still bound when a later
/// function reads it: lowering never removes a binding.
pub proof fn lemma_bindings_stay(node: NodeView, st: LoweringView, name: Seq<char>)
    requires
        st.symbols.contains_key(name),
    ensures
        lower(node, st).1.symbols.contains_key(name),
    decreases node, 0nat,
{
    match node {
        NodeView::Assign(_, value) => {
            lemma_bindings_stay(*value, st, name);
        },
        NodeView::BinaryExpr { op, lhs, rhs } => {
            lemma_bindings_stay(*lhs, st, name);
            if lower(*lhs, st).0 is Ok {
                lemma_bindings_stay(*rhs, lower(*lhs, st).1, name);
            }
        },
        NodeView::UnaryExpr { op, child } => {
            lemma_bindings_stay(*child, st, name);
        },
        NodeView::Function { name: f, arguments, return_value, children } => {
            match add_function_spec(st.functions, f, ir_type_of(return_value)) {
                Err(_) => {},
                Ok((_, fs)) => {
                    lemma_bindings_stay_all(
                        children,
                        0,
                        LoweringView { functions: fs, ..st },
                        name,
                    );
                },
            }
        },
        _ => {},
    }
}

/// The same, for a run of nodes lowered one after the other.
pub proof fn lemma_bindings_stay_all(
    nodes: Seq<NodeView>,
    from: nat,
    st: LoweringView,
    name: Seq<char>,
)
    requires
        st.symbols.contains_key(name),
    ensures
        lower_all(nodes, from, st).1.symbols.contains_key(name),
    decreases nodes, nodes.len() - from,
{
    if from < nodes.len() {
        lemma_bindings_stay(nodes[from as int], st, name);
        if lower(nodes[from as int], st).0 is Ok {
            lemma_bindings_stay_all(nodes, from + 1, lower(nodes[from as int], st).1, name);
        }
    }
}

} // verus!
