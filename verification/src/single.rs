use crate::ast::{nodes_view, Node, NodeView, UnaryOp};
use crate::grammar::{kw_false, kw_return, kw_true, stands, unary};
use crate::parser::{characters, spells};
use vstd::prelude::*;

verus! {

/// Whether `c` is a blank, a tab, a carriage return or a line feed.
pub open spec fn is_space(c: char) -> bool {
    c == ' ' || c == '\t' || c == '\r' || c == '\n'
}

/// The offset of the first character from `i` on that is no space.
pub open spec fn space_end(s: Seq<char>, i: int) -> int
    decreases s.len() - i,
{
    if 0 <= i < s.len() && is_space(s[i]) {
        space_end(s, i + 1)
    } else {
        i
    }
}

/// The node that stands at offset `i`, if one does: `true` or `false`
/// behind any spaces, or `return` with no space in front of it and a node
/// behind it. What follows the node is not looked at.
pub open spec fn node_at(s: Seq<char>, i: int) -> Option<NodeView>
    decreases s.len() - i,
{
    let j = space_end(s, i);
    if stands(s, j, kw_true()) {
        Some(NodeView::Bool(true))
    } else if stands(s, j, kw_false()) {
        Some(NodeView::Bool(false))
    } else if stands(s, j, kw_return()) && j == i {
        match node_at(s, i + 6) {
            Some(child) => Some(unary(UnaryOp::Return, child)),
            None => None,
        }
    } else {
        None
    }
}

/// Skips spaces.
pub fn sp(s: &[char], i: usize) -> (j: usize)
    requires
        i <= s@.len(),
    ensures
        j == space_end(s@, i as int),
        i <= j <= s@.len(),
{
    let mut j = i;
    while j < s.len() && (s[j] == ' ' || s[j] == '\t' || s[j] == '\r' || s[j] == '\n')
        invariant
            i <= j <= s@.len(),
            space_end(s@, j as int) == space_end(s@, i as int),
        decreases s@.len() - j,
    {
        j += 1;
    }
    j
}

fn begins(s: &[char], i: usize, word: &[char]) -> (b: bool)
    requires
        i <= s@.len(),
    ensures
        b == stands(s@, i as int, word@),
{
    if word.len() > s.len() - i {
        return false;
    }
    spells(s, i, i + word.len(), word)
}

/// Reads `true` or `false` at offset `i`.
pub fn boolean(s: &[char], i: usize) -> (r: Option<bool>)
    requires
        i <= s@.len(),
    ensures
        r == if stands(s@, i as int, kw_true()) {
            Some(true)
        } else if stands(s@, i as int, kw_false()) {
            Some(false)
        } else {
            None
        },
{
    let yes: [char; 4] = ['t', 'r', 'u', 'e'];
    let no: [char; 5] = ['f', 'a', 'l', 's', 'e'];
    assert(yes@ =~= kw_true());
    assert(no@ =~= kw_false());
    if begins(s, i, yes.as_slice()) {
        Some(true)
    } else if begins(s, i, no.as_slice()) {
        Some(false)
    } else {
        None
    }
}

/// Reads `return` at offset `i`: the offset behind it, if it stands there.
pub fn return_identifier(s: &[char], i: usize) -> (r: Option<usize>)
    requires
        i <= s@.len(),
    ensures
        match r {
            Some(behind) => stands(s@, i as int, kw_return()) && behind == i + 6 && behind
                <= s@.len(),
            None => !stands(s@, i as int, kw_return()),
        },
{
    let word: [char; 6] = ['r', 'e', 't', 'u', 'r', 'n'];
    assert(word@ =~= kw_return());
    assert(kw_return().len() == 6);
    if begins(s, i, word.as_slice()) {
        let length = s.len();
        assert(i + 6 <= length);
        Some(i + 6)
    } else {
        None
    }
}

/// Reads the node at offset `i`, as `node_at` states.
pub fn parse_jargono(s: &[char], i: usize) -> (r: Option<Node>)
    requires
        i <= s@.len(),
    ensures
        match (r, node_at(s@, i as int)) {
            (Some(node), Some(tree)) => node@ == tree,
            (None, None) => true,
            _ => false,
        },
    decreases s@.len() - i,
{
    let j = sp(s, i);
    match boolean(s, j) {
        Some(value) => Some(Node::Bool(value)),
        None => match return_identifier(s, j) {
            Some(behind) => {
                if j != i {
                    return None;
                }
                match parse_jargono(s, behind) {
                    Some(child) => Some(
                        Node::UnaryExpr { op: UnaryOp::Return, child: Box::new(child) },
                    ),
                    None => None,
                }
            },
            None => None,
        },
    }
}

/// Reads the one node that a text starts with, if it starts with one.
pub fn try_parse(input: &str) -> (r: Option<Vec<Node>>)
    ensures
        match (r, node_at(input@, 0)) {
            (Some(nodes), Some(tree)) => nodes_view(nodes@) == seq![tree],
            (None, None) => true,
            _ => false,
        },
{
    let text = characters(input);
    match parse_jargono(text.as_slice(), 0) {
        Some(node) => {
            let ghost tree = node@;
            let nodes = vec![node];
            assert(nodes_view(nodes@) =~= seq![tree]);
            Some(nodes)
        },
        None => None,
    }
}

/// Reads the one node that a text starts with.
pub fn parse(input: String) -> (nodes: Vec<Node>)
    requires
        node_at(input@, 0) is Some,
    ensures
        nodes_view(nodes@) == seq![node_at(input@, 0)->0],
{
    match try_parse(input.as_str()) {
        Some(nodes) => nodes,
        None => Vec::new(),
    }
}

} // verus!
