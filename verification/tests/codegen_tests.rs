use jargonoc::ast::{BinaryOp, Node, Type, UnaryOp};
use jargonoc::codegen::{codegen, codegen_expr, LowerError, Lowering};
use jargonoc::ir::{BackendFault, Function, Inst, IrType, Module, Value};
use jargonoc::parser::parse;
use jargonoc::symbols::SymbolTable;
use jargonoc::{build, BuildError};

fn function(name: &str, return_value: Type, children: Vec<Node>) -> Node {
    Node::Function {
        name: name.to_string(),
        arguments: vec![],
        return_value,
        children: children.into_iter().map(Box::new).collect(),
    }
}

fn ret(child: Node) -> Node {
    Node::UnaryExpr { op: UnaryOp::Return, child: Box::new(child) }
}

fn neg(child: Node) -> Node {
    Node::UnaryExpr { op: UnaryOp::Minus, child: Box::new(child) }
}

fn bin(op: BinaryOp, lhs: Node, rhs: Node) -> Node {
    Node::BinaryExpr { op, lhs: Box::new(lhs), rhs: Box::new(rhs) }
}

fn name(s: &str) -> Node {
    Node::Ref(s.to_string())
}

fn assign(s: &str, value: Node) -> Node {
    Node::Assign(s.to_string(), Box::new(value))
}

fn ir(name: &str, return_type: IrType, body: Vec<Inst>) -> Function {
    Function { name: name.to_string(), return_type, body }
}

fn temp(function: usize, index: usize) -> Value {
    Value::Temp { function, index, ty: IrType::I32 }
}

fn backend(fault: BackendFault) -> LowerError {
    LowerError::BackendConstruction(fault)
}

/// A state with one empty function to emit into.
fn in_function() -> Lowering {
    let mut st = Lowering::new();
    st.module.add_function("f".to_string(), IrType::I32).unwrap();
    st
}

fn compiled(text: &str) -> Result<Module, LowerError> {
    codegen(parse(text.to_string()).unwrap())
}

#[test]
fn main_returns_the_one_bit_constant_one() {
    assert_eq!(
        compiled("fn main() -> bool { return true; }"),
        Ok(Module {
            functions: vec![ir("main", IrType::I1, vec![Inst::Ret { value: Value::Int1(true) }])]
        })
    );
}

#[test]
fn add_holds_one_addition_and_a_return_of_it() {
    assert_eq!(
        compiled("fn add() -> int { return 1 + 2; }"),
        Ok(Module {
            functions: vec![ir(
                "add",
                IrType::I32,
                vec![
                    Inst::Add { lhs: Value::Int32(1), rhs: Value::Int32(2) },
                    Inst::Ret { value: temp(0, 0) },
                ]
            )]
        })
    );
}

#[test]
fn return_of_a_sum_of_literals() {
    for (a, b) in [(0, 0), (1, 2), (-7, 7), (i32::MAX, i32::MAX), (i32::MIN, -1)] {
        let mut st = in_function();
        let node = ret(bin(BinaryOp::Plus, Node::Int(a), Node::Int(b)));
        assert_eq!(
            codegen_expr(&node, &mut st),
            Ok(Value::Terminator { function: 0, index: 1 })
        );
        assert_eq!(
            st.module.functions,
            vec![ir(
                "f",
                IrType::I32,
                vec![
                    Inst::Add { lhs: Value::Int32(a), rhs: Value::Int32(b) },
                    Inst::Ret { value: temp(0, 0) },
                ]
            )]
        );
    }
}

#[test]
fn a_name_bound_in_one_function_is_seen_in_the_next() {
    let program = vec![
        function("a", Type::Int, vec![assign("x", Node::Int(1)), ret(name("x"))]),
        function("b", Type::Int, vec![ret(name("x"))]),
    ];
    assert_eq!(
        codegen(program),
        Ok(Module {
            functions: vec![
                ir("a", IrType::I32, vec![Inst::Ret { value: Value::Int32(1) }]),
                ir("b", IrType::I32, vec![Inst::Ret { value: Value::Int32(1) }]),
            ]
        })
    );
    assert_eq!(
        compiled("fn a() -> int { let x = 1; return x; }\nfn b() -> int { return x; }"),
        compiled("fn a() -> int { return 1; }\nfn b() -> int { return 1; }")
    );
}

#[test]
fn negation_is_subtraction_from_zero() {
    let negated = compiled("fn f() -> int { return - 5; }");
    assert_eq!(negated, compiled("fn f() -> int { return 0 - 5; }"));
    assert_eq!(
        negated,
        Ok(Module {
            functions: vec![ir(
                "f",
                IrType::I32,
                vec![
                    Inst::Sub { lhs: Value::Int32(0), rhs: Value::Int32(5) },
                    Inst::Ret { value: temp(0, 0) },
                ]
            )]
        })
    );
    let mut one = in_function();
    let mut other = in_function();
    assert_eq!(
        codegen_expr(&neg(name("y")), &mut one),
        codegen_expr(&bin(BinaryOp::Minus, Node::Int(0), name("y")), &mut other)
    );
    assert_eq!(one.module, other.module);
}

#[test]
fn literals_are_constants() {
    let mut st = Lowering::new();
    assert_eq!(codegen_expr(&Node::Int(-3), &mut st), Ok(Value::Int32(-3)));
    assert_eq!(codegen_expr(&Node::Bool(false), &mut st), Ok(Value::Int1(false)));
    assert_eq!(codegen_expr(&Node::Bool(true), &mut st), Ok(Value::Int1(true)));
    assert_eq!(st.module, Module { functions: vec![] });
}

#[test]
fn the_left_operand_is_lowered_first() {
    let mut st = in_function();
    let node = bin(
        BinaryOp::Minus,
        bin(BinaryOp::Plus, Node::Int(1), Node::Int(2)),
        bin(BinaryOp::Plus, Node::Int(3), Node::Int(4)),
    );
    assert_eq!(codegen_expr(&node, &mut st), Ok(temp(0, 2)));
    assert_eq!(
        st.module.functions[0].body,
        vec![
            Inst::Add { lhs: Value::Int32(1), rhs: Value::Int32(2) },
            Inst::Add { lhs: Value::Int32(3), rhs: Value::Int32(4) },
            Inst::Sub { lhs: temp(0, 0), rhs: temp(0, 1) },
        ]
    );
}

#[test]
fn an_assignment_yields_its_value_and_overwrites() {
    let mut st = in_function();
    assert_eq!(codegen_expr(&assign("x", Node::Int(1)), &mut st), Ok(Value::Int32(1)));
    assert_eq!(codegen_expr(&name("x"), &mut st), Ok(Value::Int32(1)));
    assert_eq!(codegen_expr(&assign("x", Node::Bool(true)), &mut st), Ok(Value::Int1(true)));
    assert_eq!(codegen_expr(&name("x"), &mut st), Ok(Value::Int1(true)));
    assert_eq!(st.module.functions[0].body, vec![]);
}

#[test]
fn an_unbound_name_is_fatal() {
    assert_eq!(
        compiled("fn f() -> int { return y; }"),
        Err(LowerError::UnresolvedReference("y".to_string()))
    );
    assert_eq!(
        compiled("fn f() -> int { let x = x; }"),
        Err(LowerError::UnresolvedReference("x".to_string()))
    );
}

#[test]
fn operands_of_two_widths_do_not_match() {
    assert_eq!(
        compiled("fn f() -> int { return 1 + true; }"),
        Err(backend(BackendFault::OperandTypeMismatch))
    );
    assert_eq!(
        compiled("fn f() -> int { return - (return 1); }"),
        Err(backend(BackendFault::BlockTerminated))
    );
    let mut st = in_function();
    let r = codegen_expr(&ret(Node::Int(1)), &mut st).unwrap();
    let mut st = in_function();
    st.symbols.insert("r".to_string(), r);
    assert_eq!(
        codegen_expr(&bin(BinaryOp::Plus, name("r"), name("r")), &mut st),
        Err(backend(BackendFault::OperandTypeMismatch))
    );
}

#[test]
fn one_bit_operands_match_each_other() {
    let mut st = in_function();
    assert_eq!(
        codegen_expr(&bin(BinaryOp::Plus, Node::Bool(true), Node::Bool(false)), &mut st),
        Ok(Value::Temp { function: 0, index: 0, ty: IrType::I1 })
    );
}

#[test]
fn nothing_follows_a_return() {
    assert_eq!(
        compiled("fn f() -> int { return 1; return 2; }"),
        Err(backend(BackendFault::BlockTerminated))
    );
    assert_eq!(
        compiled("fn f() -> int { return 1; 1 + 2; }"),
        Err(backend(BackendFault::BlockTerminated))
    );
    // What emits nothing may still follow.
    assert_eq!(
        compiled("fn f() -> int { return 1; let x = 2; }"),
        Ok(Module {
            functions: vec![ir("f", IrType::I32, vec![Inst::Ret { value: Value::Int32(1) }])]
        })
    );
}

#[test]
fn instructions_need_a_function() {
    let mut st = Lowering::new();
    assert_eq!(
        codegen_expr(&bin(BinaryOp::Plus, Node::Int(1), Node::Int(2)), &mut st),
        Err(backend(BackendFault::NoInsertionPoint))
    );
    assert_eq!(
        codegen(vec![ret(Node::Int(1))]),
        Err(backend(BackendFault::NoInsertionPoint))
    );
    assert_eq!(codegen(vec![Node::Int(1)]), Ok(Module { functions: vec![] }));
}

#[test]
fn two_functions_of_one_name_are_refused() {
    assert_eq!(
        compiled("fn f() -> int { return 1; }\nfn f() -> int { return 2; }"),
        Err(backend(BackendFault::DuplicateFunction))
    );
}

#[test]
fn a_call_cannot_be_lowered() {
    assert_eq!(
        compiled("fn f() -> int { return g(); }"),
        Err(backend(BackendFault::CallUnsupported))
    );
}

#[test]
fn a_function_yields_itself() {
    let mut st = Lowering::new();
    assert_eq!(
        codegen_expr(&function("a", Type::Bool, vec![]), &mut st),
        Ok(Value::Function(0))
    );
    assert_eq!(
        codegen_expr(&function("b", Type::Int, vec![ret(Node::Int(0))]), &mut st),
        Ok(Value::Function(1))
    );
    assert_eq!(
        st.module.functions,
        vec![
            ir("a", IrType::I1, vec![]),
            ir("b", IrType::I32, vec![Inst::Ret { value: Value::Int32(0) }]),
        ]
    );
}

#[test]
fn declared_parameters_never_reach_the_module() {
    let node = Node::Function {
        name: "f".to_string(),
        arguments: vec![jargonoc::ast::Argument { name: "a".to_string(), value_type: Type::Int }],
        return_value: Type::Int,
        children: vec![Box::new(ret(name("a")))],
    };
    assert_eq!(
        codegen(vec![node]),
        Err(LowerError::UnresolvedReference("a".to_string()))
    );
}

#[test]
fn the_state_stays_as_it_was_when_lowering_failed() {
    let mut st = in_function();
    let node = bin(
        BinaryOp::Plus,
        bin(BinaryOp::Plus, Node::Int(1), Node::Int(2)),
        name("nowhere"),
    );
    assert_eq!(
        codegen_expr(&node, &mut st),
        Err(LowerError::UnresolvedReference("nowhere".to_string()))
    );
    assert_eq!(
        st.module.functions[0].body,
        vec![Inst::Add { lhs: Value::Int32(1), rhs: Value::Int32(2) }]
    );
}

#[test]
fn symbol_table_binds_and_rebinds() {
    let mut table = SymbolTable::new();
    assert_eq!(table.get(&"x".to_string()), None);
    table.insert("x".to_string(), Value::Int32(1));
    table.insert("y".to_string(), Value::Int32(2));
    assert_eq!(table.get(&"x".to_string()), Some(Value::Int32(1)));
    table.insert("x".to_string(), Value::Int32(3));
    assert_eq!(table.get(&"x".to_string()), Some(Value::Int32(3)));
    assert_eq!(table.get(&"y".to_string()), Some(Value::Int32(2)));
    assert_eq!(table.get(&"z".to_string()), None);
}

#[test]
fn module_construction() {
    let mut m = Module::new();
    assert_eq!(m.build_ret(Value::Int32(0)), Err(BackendFault::NoInsertionPoint));
    assert_eq!(m.add_function("f".to_string(), IrType::I32), Ok(Value::Function(0)));
    assert!(m.has_function(&"f".to_string()));
    assert!(!m.has_function(&"g".to_string()));
    assert_eq!(
        m.add_function("f".to_string(), IrType::I1),
        Err(BackendFault::DuplicateFunction)
    );
    assert_eq!(
        m.build_binary(BinaryOp::Minus, Value::Int32(5), Value::Int32(3)),
        Ok(temp(0, 0))
    );
    assert_eq!(
        m.build_binary(BinaryOp::Plus, Value::Function(0), Value::Function(0)),
        Err(BackendFault::OperandTypeMismatch)
    );
    assert_eq!(m.build_ret(temp(0, 0)), Ok(Value::Terminator { function: 0, index: 1 }));
    assert_eq!(m.build_ret(temp(0, 0)), Err(BackendFault::BlockTerminated));
    assert_eq!(m.add_function("g".to_string(), IrType::I1), Ok(Value::Function(1)));
    assert_eq!(m.build_ret(Value::Int1(true)), Ok(Value::Terminator { function: 1, index: 0 }));
    assert_eq!(
        m,
        Module {
            functions: vec![
                ir(
                    "f",
                    IrType::I32,
                    vec![
                        Inst::Sub { lhs: Value::Int32(5), rhs: Value::Int32(3) },
                        Inst::Ret { value: temp(0, 0) },
                    ]
                ),
                ir("g", IrType::I1, vec![Inst::Ret { value: Value::Int1(true) }]),
            ]
        }
    );
}

#[test]
fn build_reads_then_lowers() {
    assert_eq!(
        build("fn main() -> bool { return true; }".to_string()),
        Ok(Module {
            functions: vec![ir("main", IrType::I1, vec![Inst::Ret { value: Value::Int1(true) }])]
        })
    );
    match build("fn main() -> bool { return }".to_string()) {
        Err(BuildError::Syntax(e)) => assert_eq!((e.line, e.column_start), (1, 27)),
        other => panic!("{:?}", other),
    }
    assert_eq!(
        build("fn main() -> bool { return x; }".to_string()),
        Err(BuildError::Lowering(LowerError::UnresolvedReference("x".to_string())))
    );
}
