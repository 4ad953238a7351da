//! Structural checker over the produced tree: a boolean accept/reject walk
//! that dispatches on the node-kind token.

use vstd::prelude::*;

use crate::lex::Token;
use crate::lex::TokenView;
use crate::parse::Node;
use crate::parse::NodeView;

verus! {

/// Acceptance of a tree node: a conditional needs at least a condition child
/// and a body child, both accepted; a block needs every child accepted;
/// number and identifier leaves are accepted; every other kind is rejected.
pub open spec fn valid_spec(n: NodeView) -> bool
    decreases n,
{
    match n.token {
        TokenView::If => n.children.len() >= 2 && valid_spec(n.children[0]) && valid_spec(
            n.children[1],
        ),
        TokenView::Block => forall|k: int|
            0 <= k < n.children.len() ==> valid_spec(#[trigger] n.children[k]),
        TokenView::Number(_) => true,
        TokenView::Identifier(_) => true,
        _ => false,
    }
}

fn validate_ref(node: &Node) -> (r: bool)
    ensures
        r == valid_spec(node@),
    decreases node,
{
    proof {
        crate::parse::lemma_nodes_views(node.children@);
    }
    match &node.token {
        Token::If => {
            if node.children.len() < 2 {
                return false;
            }
            if !validate_ref(&node.children[0]) {
                return false;
            }
            validate_ref(&node.children[1])
        },
        Token::Block => {
            let mut k: usize = 0;
            while k < node.children.len()
                invariant
                    node@.token is Block,
                    k <= node.children@.len(),
                    node@.children.len() == node.children@.len(),
                    forall|m: int| 0 <= m < k ==> valid_spec(#[trigger] node@.children[m]),
                    forall|m: int|
                        0 <= m < node.children@.len() ==> node@.children[m] == node.children@[m]@,
                decreases node.children@.len() - k,
            {
                if !validate_ref(&node.children[k]) {
                    proof {
                        assert(!valid_spec(node@.children[k as int]));
                    }
                    return false;
                }
                k = k + 1;
            }
            true
        },
        Token::Number(_) => true,
        Token::Identifier(_) => true,
        _ => false,
    }
}

/// Walks the tree and reports whether the structural checker accepts it.
pub fn validate(node: Node) -> (r: bool)
    ensures
        r == valid_spec(node@),
{
    validate_ref(&node)
}

} // verus!
