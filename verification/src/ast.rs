use vstd::prelude::*;

verus! {

/// A prefix operator.
#[derive(Debug, PartialEq, Eq, Clone, Copy)]
pub enum UnaryOp {
    Minus,
    Return,
}

/// An infix operator.
#[derive(Debug, PartialEq, Eq, Clone, Copy)]
pub enum BinaryOp {
    Plus,
    Minus,
}

/// A declared type: `Bool` is one bit wide, `Int` thirty-two.
#[derive(Debug, PartialEq, Eq, Clone, Copy)]
pub enum Type {
    Bool,
    Int,
}

/// A declared parameter or a call argument.
#[derive(Debug, PartialEq, Eq)]
pub struct Argument {
    pub name: String,
    pub value_type: Type,
}

/// A node of the syntax tree. A node owns its children.
///
/// The body of a function is a flat run of statements. `FnRef` is a call;
/// its arguments, like the parameters of a function, are always empty.
#[allow(inconsistent_fields)]
#[derive(Debug, PartialEq, Eq)]
pub enum Node {
    Int(i32),
    Bool(bool),
    Ref(String),
    FnRef(String, Vec<Argument>),
    Assign(String, Box<Node>),
    Function {
        name: String,
        arguments: Vec<Argument>,
        return_value: Type,
        children: Vec<Box<Node>>,
    },
    UnaryExpr { op: UnaryOp, child: Box<Node> },
    BinaryExpr { op: BinaryOp, lhs: Box<Node>, rhs: Box<Node> },
}

/// An argument, with its name as a sequence of characters.
pub struct ArgumentView {
    pub name: Seq<char>,
    pub value_type: Type,
}

/// A node, with every name in it as a sequence of characters and every run
/// of children as a sequence: what contracts say of a `Node`.
#[allow(inconsistent_fields)]
pub enum NodeView {
    Int(i32),
    Bool(bool),
    Ref(Seq<char>),
    FnRef(Seq<char>, Seq<ArgumentView>),
    Assign(Seq<char>, Box<NodeView>),
    Function {
        name: Seq<char>,
        arguments: Seq<ArgumentView>,
        return_value: Type,
        children: Seq<NodeView>,
    },
    UnaryExpr { op: UnaryOp, child: Box<NodeView> },
    BinaryExpr { op: BinaryOp, lhs: Box<NodeView>, rhs: Box<NodeView> },
}

impl View for Argument {
    type V = ArgumentView;

    open spec fn view(&self) -> ArgumentView {
        ArgumentView { name: self.name@, value_type: self.value_type }
    }
}

impl Node {
    /// The tree that this node stands for, with names as character sequences.
    pub open spec fn model(self) -> NodeView
        decreases self,
    {
        match self {
            Node::Int(v) => NodeView::Int(v),
            Node::Bool(b) => NodeView::Bool(b),
            Node::Ref(name) => NodeView::Ref(name@),
            Node::FnRef(name, arguments) => NodeView::FnRef(
                name@,
                arguments@.map_values(|a: Argument| a@),
            ),
            Node::Assign(name, value) => NodeView::Assign(name@, Box::new((*value).model())),
            Node::Function { name, arguments, return_value, children } => NodeView::Function {
                name: name@,
                arguments: arguments@.map_values(|a: Argument| a@),
                return_value: return_value,
                children: Seq::new(
                    children@.len(),
                    |i: int|
                        if 0 <= i < children@.len() {
                            (*children@[i]).model()
                        } else {
                            NodeView::Int(0)
                        },
                ),
            },
            Node::UnaryExpr { op, child } => NodeView::UnaryExpr {
                op: op,
                child: Box::new((*child).model()),
            },
            Node::BinaryExpr { op, lhs, rhs } => NodeView::BinaryExpr {
                op: op,
                lhs: Box::new((*lhs).model()),
                rhs: Box::new((*rhs).model()),
            },
        }
    }
}

impl View for Node {
    type V = NodeView;

    open spec fn view(&self) -> NodeView {
        self.model()
    }
}

/// The trees that a run of nodes stands for.
pub open spec fn nodes_view(nodes: Seq<Node>) -> Seq<NodeView> {
    Seq::new(nodes.len(), |i: int| nodes[i]@)
}

/// The same, for nodes that are held in boxes.
pub open spec fn boxed_view(nodes: Seq<Box<Node>>) -> Seq<NodeView> {
    Seq::new(nodes.len(), |i: int| (*nodes[i])@)
}

/// The children of a function node are the trees of its statements.
pub proof fn lemma_function_view(
    name: String,
    arguments: Vec<Argument>,
    return_value: Type,
    children: Vec<Box<Node>>,
)
    ensures
        (Node::Function { name, arguments, return_value, children })@ == (NodeView::Function {
            name: name@,
            arguments: arguments@.map_values(|a: Argument| a@),
            return_value,
            children: boxed_view(children@),
        }),
{
    let node = Node::Function { name, arguments, return_value, children };
    assert(node@->children =~= boxed_view(children@));
}

} // verus!
