//! Tree builder: turns a token sequence into a tree of syntactic constructs
//! (program, blocks, conditionals, function and structure definitions,
//! statement lines) by index-driven dispatch on token kinds, depth-counted
//! brace matching, and recursive re-parsing of nested token sub-ranges.
//!
//! The builder is total: running off the end of the token sequence in the
//! middle of a construct closes that construct early instead of failing, so
//! malformed input yields a malformed-but-structurally-valid tree.

use vstd::prelude::*;

use crate::lex::Token;
use crate::lex::TokenView;

verus! {

broadcast use
    vstd::std_specs::vec::group_vec_axioms,
    vstd::seq::group_seq_axioms,
;

/// A labeled tree element: the label is a token, the contents are an ordered
/// list of child nodes. The token is the node-kind discriminant; there is no
/// separate enumeration.
#[derive(Debug, PartialEq, Eq, Hash)]
pub struct Node {
    pub token: Token,
    pub children: Vec<Node>,
}

/// The mathematical model of a `Node`: a token view and the sequence of the
/// children's models.
pub ghost struct NodeView {
    pub token: TokenView,
    pub children: Seq<NodeView>,
}

impl View for Node {
    type V = NodeView;

    open spec fn view(&self) -> NodeView
        decreases self,
    {
        NodeView { token: self.token@, children: nodes_views(self.children@) }
    }
}

/// The views of a sequence of nodes, element-wise.
pub open spec fn nodes_views(v: Seq<Node>) -> Seq<NodeView>
    decreases v,
{
    if v.len() == 0 {
        seq![]
    } else {
        seq![v[0]@] + nodes_views(v.drop_first())
    }
}

/// `nodes_views` is the element-wise view map.
pub broadcast proof fn lemma_nodes_views(v: Seq<Node>)
    ensures
        (#[trigger] nodes_views(v)).len() == v.len(),
        forall|k: int| 0 <= k < v.len() ==> nodes_views(v)[k] == v[k]@,
    decreases v.len(),
{
    if v.len() > 0 {
        lemma_nodes_views(v.drop_first());
        assert forall|k: int| 0 <= k < v.len() implies nodes_views(v)[k] == v[k]@ by {
            if k > 0 {
                assert(nodes_views(v.drop_first()).len() == v.len() - 1);
                assert(nodes_views(v) == seq![v[0]@] + nodes_views(v.drop_first()));
                assert(nodes_views(v)[k] == nodes_views(v.drop_first())[k - 1]);
                assert(v.drop_first()[k - 1] == v[k]);
            }
        }
    }
}

impl DeepView for Node {
    type V = NodeView;

    open spec fn deep_view(&self) -> NodeView {
        self.view()
    }
}

/// A childless node carrying one token.
pub open spec fn leaf(t: TokenView) -> NodeView {
    NodeView { token: t, children: seq![] }
}

/// The tokens `ts[i..j]`, each wrapped as a leaf node.
pub open spec fn leaves(ts: Seq<TokenView>, i: int, j: int) -> Seq<NodeView> {
    Seq::new(if j >= i { (j - i) as nat } else { 0 }, |k: int| leaf(ts[i + k]))
}

/// A `Block` node over the given children.
pub open spec fn block_node(cs: Seq<NodeView>) -> NodeView {
    NodeView { token: TokenView::Block, children: cs }
}

/// First position at or after `i` holding a semicolon (or the length).
pub open spec fn line_end(ts: Seq<TokenView>, i: int) -> int
    decreases ts.len() - i,
{
    if 0 <= i < ts.len() && !(ts[i] is SemiColon) {
        line_end(ts, i + 1)
    } else {
        i
    }
}

/// First position at or after `i` holding an opening curly bracket.
pub open spec fn cond_end(ts: Seq<TokenView>, i: int) -> int
    decreases ts.len() - i,
{
    if 0 <= i < ts.len() && !(ts[i] is LeftCurlyBracket) {
        cond_end(ts, i + 1)
    } else {
        i
    }
}

/// First position at or after `i` holding a closing parenthesis.
pub open spec fn rparen_end(ts: Seq<TokenView>, i: int) -> int
    decreases ts.len() - i,
{
    if 0 <= i < ts.len() && !(ts[i] is RightParen) {
        rparen_end(ts, i + 1)
    } else {
        i
    }
}

/// First position at or after `i` holding the function keyword.
pub open spec fn fields_end(ts: Seq<TokenView>, i: int) -> int
    decreases ts.len() - i,
{
    if 0 <= i < ts.len() && !(ts[i] is Fn) {
        fields_end(ts, i + 1)
    } else {
        i
    }
}

/// One statement line scanned from `i`: the tokens up to (not including) the
/// next semicolon as leaves, with one explicit semicolon leaf appended last
/// (manufactured even when the scan ran off the end).
pub open spec fn line_node(ts: Seq<TokenView>, i: int) -> NodeView {
    NodeView {
        token: TokenView::Line,
        children: leaves(ts, i, line_end(ts, i)).push(leaf(TokenView::SemiColon)),
    }
}

pub proof fn lemma_line_end_bounds(ts: Seq<TokenView>, i: int)
    ensures
        i <= line_end(ts, i),
        0 <= i <= ts.len() ==> line_end(ts, i) <= ts.len(),
    decreases ts.len() - i,
{
    if 0 <= i < ts.len() && !(ts[i] is SemiColon) {
        lemma_line_end_bounds(ts, i + 1);
    }
}

pub proof fn lemma_cond_end_bounds(ts: Seq<TokenView>, i: int)
    ensures
        i <= cond_end(ts, i),
        0 <= i <= ts.len() ==> cond_end(ts, i) <= ts.len(),
    decreases ts.len() - i,
{
    if 0 <= i < ts.len() && !(ts[i] is LeftCurlyBracket) {
        lemma_cond_end_bounds(ts, i + 1);
    }
}

pub proof fn lemma_rparen_end_bounds(ts: Seq<TokenView>, i: int)
    ensures
        i <= rparen_end(ts, i),
        0 <= i <= ts.len() ==> rparen_end(ts, i) <= ts.len(),
    decreases ts.len() - i,
{
    if 0 <= i < ts.len() && !(ts[i] is RightParen) {
        lemma_rparen_end_bounds(ts, i + 1);
    }
}

pub proof fn lemma_fields_end_bounds(ts: Seq<TokenView>, i: int)
    ensures
        i <= fields_end(ts, i),
        0 <= i <= ts.len() ==> fields_end(ts, i) <= ts.len(),
    decreases ts.len() - i,
{
    if 0 <= i < ts.len() && !(ts[i] is Fn) {
        lemma_fields_end_bounds(ts, i + 1);
    }
}

/// The change a token makes to the brace nesting depth.
pub open spec fn brace_delta(t: TokenView) -> int {
    if t is LeftCurlyBracket {
        1
    } else if t is RightCurlyBracket {
        -1
    } else {
        0
    }
}

/// Net brace count of the tokens `ts[i..j]`.
pub open spec fn brace_sum(ts: Seq<TokenView>, i: int, j: int) -> int
    decreases j - i,
{
    if i < j {
        brace_delta(ts[i]) + brace_sum(ts, i + 1, j)
    } else {
        0
    }
}

/// First position at or after `j` where the running depth — starting at
/// `depth` and adjusted by every brace crossed — reaches zero (always at a
/// closing brace); the length of the sequence when it never does.
pub open spec fn close_pos(ts: Seq<TokenView>, j: int, depth: int) -> int
    decreases ts.len() - j,
{
    if !(0 <= j < ts.len()) {
        ts.len() as int
    } else {
        let d2 = depth + brace_delta(ts[j]);
        if d2 <= 0 {
            j
        } else {
            close_pos(ts, j + 1, d2)
        }
    }
}

pub proof fn lemma_close_pos_bounds(ts: Seq<TokenView>, j: int, depth: int)
    ensures
        0 <= j <= ts.len() ==> j <= close_pos(ts, j, depth) <= ts.len(),
    decreases ts.len() - j,
{
    if 0 <= j < ts.len() {
        let d2 = depth + brace_delta(ts[j]);
        if d2 > 0 {
            lemma_close_pos_bounds(ts, j + 1, d2);
        }
    }
}

pub proof fn lemma_brace_sum_snoc(ts: Seq<TokenView>, i: int, j: int)
    requires
        i <= j,
    ensures
        brace_sum(ts, i, j + 1) == brace_sum(ts, i, j) + brace_delta(ts[j]),
    decreases j - i,
{
    if i < j {
        lemma_brace_sum_snoc(ts, i + 1, j);
    } else {
        assert(brace_sum(ts, j + 1, j + 1) == 0);
        assert(brace_sum(ts, j, j + 1) == brace_delta(ts[j]) + brace_sum(ts, j + 1, j + 1));
    }
}

/// A statement line flushed by the body scan: the tokens `ts[i..m]` as one
/// `Line` node with its manufactured semicolon, or nothing when no token of
/// the line was consumed yet.
pub open spec fn flush_line(ts: Seq<TokenView>, i: int, m: int) -> Seq<NodeView> {
    if m > i {
        seq![
            NodeView {
                token: TokenView::Line,
                children: leaves(ts, i, m).push(leaf(TokenView::SemiColon)),
            },
        ]
    } else {
        seq![]
    }
}

/// Depth-counted body scan used by branch bodies and bare blocks: starting
/// just inside an opening brace at depth `depth`, walks the body token by
/// token, every brace adjusting the depth, and splits the tokens crossed
/// into `Line` nodes at semicolon boundaries. The body ends at the closing
/// brace that brings the depth to zero (excluded, with a line still in
/// progress flushed) or at the end of the sequence. Returns the line nodes
/// and the position after the scan.
pub open spec fn depth_lines(ts: Seq<TokenView>, i: int, depth: int) -> (Seq<NodeView>, int)
    decreases ts.len() - i,
    via depth_lines_dec
{
    if !(0 <= i < ts.len()) || depth <= 0 {
        (seq![], i)
    } else {
        let le = line_end(ts, i);
        let cp = close_pos(ts, i, depth);
        if cp < le {
            (flush_line(ts, i, cp), cp + 1)
        } else if le < ts.len() {
            let d2 = depth + brace_sum(ts, i, le + 1);
            (
                seq![line_node(ts, i)] + depth_lines(ts, le + 1, d2).0,
                depth_lines(ts, le + 1, d2).1,
            )
        } else {
            (flush_line(ts, i, ts.len() as int), ts.len() as int)
        }
    }
}

#[via_fn]
proof fn depth_lines_dec(ts: Seq<TokenView>, i: int, depth: int) {
    lemma_line_end_bounds(ts, i);
}

pub proof fn lemma_depth_lines_bounds(ts: Seq<TokenView>, i: int, depth: int)
    ensures
        0 <= i <= ts.len() ==> i <= depth_lines(ts, i, depth).1 <= ts.len(),
    decreases ts.len() - i,
{
    if 0 <= i < ts.len() && depth > 0 {
        let le = line_end(ts, i);
        let cp = close_pos(ts, i, depth);
        lemma_line_end_bounds(ts, i);
        lemma_close_pos_bounds(ts, i, depth);
        if cp < le {
        } else if le < ts.len() {
            let d2 = depth + brace_sum(ts, i, le + 1);
            lemma_depth_lines_bounds(ts, le + 1, d2);
        }
    }
}

/// Depth-counted raw extraction used by function and structure bodies:
/// starting just inside an opening brace at depth `depth`, collects the
/// enclosed tokens (the matching closing brace excluded) until the depth
/// reaches zero or the sequence ends. Returns the tokens and the position
/// after the scan.
pub open spec fn extract(ts: Seq<TokenView>, i: int, depth: int) -> (Seq<TokenView>, int)
    decreases ts.len() - i,
{
    if !(0 <= i < ts.len()) || depth <= 0 {
        (seq![], i)
    } else {
        let d2 = depth + brace_delta(ts[i]);
        if d2 <= 0 {
            (seq![], i + 1)
        } else {
            (seq![ts[i]] + extract(ts, i + 1, d2).0, extract(ts, i + 1, d2).1)
        }
    }
}

pub proof fn lemma_extract_bounds(ts: Seq<TokenView>, i: int, depth: int)
    ensures
        0 <= i <= ts.len() ==> i <= extract(ts, i, depth).1 <= ts.len(),
        0 <= i <= ts.len() ==> extract(ts, i, depth).0.len() <= ts.len() - i,
    decreases ts.len() - i,
{
    if 0 <= i < ts.len() && depth > 0 {
        let d2 = depth + brace_delta(ts[i]);
        if d2 > 0 {
            lemma_extract_bounds(ts, i + 1, d2);
        }
    }
}

/// Drops one trailing end-of-input token from an extracted body, so that the
/// sentinel never enters a recursively parsed sub-range when a construct ran
/// off the end of the sequence.
pub open spec fn strip_eof(b: Seq<TokenView>) -> Seq<TokenView> {
    if b.len() > 0 && b.last() is EOF {
        b.drop_last()
    } else {
        b
    }
}

/// The construct built at position `i` of the token sequence: one node, per
/// the dispatch on the token at the cursor. Meaningful only at the positions
/// where the scan builds a node (`parse_items` skips the others).
pub open spec fn parse_item_at(ts: Seq<TokenView>, i: int) -> NodeView
    decreases 3 * ts.len(), ts.len() - i,
    via parse_item_at_dec
{
    if !(0 <= i < ts.len()) {
        leaf(TokenView::Null)
    } else {
        let t = ts[i];
        if t is If {
            let ce = cond_end(ts, i + 1);
            let bs = if ce < ts.len() {
                ce + 1
            } else {
                ts.len() as int
            };
            NodeView {
                token: TokenView::If,
                children: leaves(ts, i + 1, ce).push(block_node(depth_lines(ts, bs, 1).0)),
            }
        } else if t is Else {
            NodeView {
                token: TokenView::Else,
                children: seq![block_node(depth_lines(ts, i + 2, 1).0)],
            }
        } else if t is LeftCurlyBracket {
            block_node(depth_lines(ts, i + 1, 1).0)
        } else if t is Struct {
            let nm: Seq<NodeView> = if i + 1 < ts.len() {
                seq![leaf(ts[i + 1])]
            } else {
                seq![]
            };
            let s3 = if i + 3 < ts.len() {
                i + 3
            } else {
                ts.len() as int
            };
            let b = strip_eof(extract(ts, s3, 1).0);
            let fe = fields_end(b, 0);
            let fields = NodeView { token: TokenView::Fields, children: leaves(b, 0, fe) };
            let fns = NodeView {
                token: TokenView::Functions,
                children: if i + 3 < ts.len() {
                    funcs(b, fe)
                } else {
                    seq![]
                },
            };
            NodeView { token: TokenView::Struct, children: nm + seq![fields, fns] }
        } else if t is Fn {
            let nm: Seq<NodeView> = if i + 1 < ts.len() {
                seq![leaf(ts[i + 1])]
            } else {
                seq![]
            };
            let s = if i + 3 < ts.len() {
                i + 3
            } else {
                ts.len() as int
            };
            let pe = rparen_end(ts, s);
            let args = NodeView { token: TokenView::Arguments, children: leaves(ts, s, pe) };
            let rt: Seq<NodeView> = if pe + 2 < ts.len() {
                seq![leaf(ts[pe + 2])]
            } else {
                seq![]
            };
            let s4 = if pe + 4 < ts.len() {
                pe + 4
            } else {
                ts.len() as int
            };
            let body = strip_eof(extract(ts, s4, 1).0);
            let blk = NodeView { token: TokenView::Block, children: seq![parse_spec(body)] };
            NodeView { token: TokenView::Fn, children: nm.push(args) + rt.push(blk) }
        } else if t is Identifier {
            let s2 = if i + 2 < ts.len() {
                i + 2
            } else {
                ts.len() as int
            };
            let b = strip_eof(extract(ts, s2, 1).0);
            NodeView {
                token: TokenView::Struct,
                children: seq![
                    leaf(ts[i]),
                    NodeView { token: TokenView::Fields, children: leaves(b, 0, b.len() as int) },
                ],
            }
        } else {
            line_node(ts, i)
        }
    }
}

#[via_fn]
proof fn parse_item_at_dec(ts: Seq<TokenView>, i: int) {
    if 0 <= i < ts.len() {
        let s3 = if i + 3 < ts.len() {
            i + 3
        } else {
            ts.len() as int
        };
        lemma_extract_bounds(ts, s3, 1);
        let b = strip_eof(extract(ts, s3, 1).0);
        lemma_fields_end_bounds(b, 0);
        assert(b.len() <= extract(ts, s3, 1).0.len());
        lemma_rparen_end_bounds(ts, s3);
        let pe = rparen_end(ts, s3);
        let s4 = if pe + 4 < ts.len() {
            pe + 4
        } else {
            ts.len() as int
        };
        lemma_extract_bounds(ts, s4, 1);
    }
}

/// The position where the scan continues after the construct at `i`.
pub open spec fn parse_next(ts: Seq<TokenView>, i: int) -> int {
    if !(0 <= i < ts.len()) {
        i
    } else {
        let t = ts[i];
        if t is If {
            let ce = cond_end(ts, i + 1);
            let bs = if ce < ts.len() {
                ce + 1
            } else {
                ts.len() as int
            };
            depth_lines(ts, bs, 1).1
        } else if t is Else {
            if i + 2 >= ts.len() {
                ts.len() as int
            } else {
                depth_lines(ts, i + 2, 1).1
            }
        } else if t is LeftCurlyBracket {
            depth_lines(ts, i + 1, 1).1
        } else if t is Struct {
            let s3 = if i + 3 < ts.len() {
                i + 3
            } else {
                ts.len() as int
            };
            extract(ts, s3, 1).1
        } else if t is Fn {
            let s = if i + 3 < ts.len() {
                i + 3
            } else {
                ts.len() as int
            };
            let pe = rparen_end(ts, s);
            let s4 = if pe + 4 < ts.len() {
                pe + 4
            } else {
                ts.len() as int
            };
            extract(ts, s4, 1).1
        } else if t is Identifier {
            if i + 1 < ts.len() && ts[i + 1] is LeftCurlyBracket {
                let s2 = if i + 2 < ts.len() {
                    i + 2
                } else {
                    ts.len() as int
                };
                extract(ts, s2, 1).1
            } else {
                i + 1
            }
        } else {
            let le = line_end(ts, i);
            if le < ts.len() {
                le + 1
            } else {
                ts.len() as int
            }
        }
    }
}

/// The scan always advances and stays inside the sequence.
pub proof fn lemma_parse_next_bounds(ts: Seq<TokenView>, i: int)
    ensures
        0 <= i < ts.len() ==> i < parse_next(ts, i) <= ts.len(),
{
    if 0 <= i < ts.len() {
        lemma_cond_end_bounds(ts, i + 1);
        let ce = cond_end(ts, i + 1);
        let bs = if ce < ts.len() {
            ce + 1
        } else {
            ts.len() as int
        };
        lemma_depth_lines_bounds(ts, bs, 1);
        lemma_depth_lines_bounds(ts, i + 1, 1);
        if i + 2 < ts.len() {
            lemma_depth_lines_bounds(ts, i + 2, 1);
        }
        let s3 = if i + 3 < ts.len() {
            i + 3
        } else {
            ts.len() as int
        };
        lemma_extract_bounds(ts, s3, 1);
        lemma_rparen_end_bounds(ts, s3);
        let pe = rparen_end(ts, s3);
        let s4 = if pe + 4 < ts.len() {
            pe + 4
        } else {
            ts.len() as int
        };
        lemma_extract_bounds(ts, s4, 1);
        let s2 = if i + 2 < ts.len() {
            i + 2
        } else {
            ts.len() as int
        };
        lemma_extract_bounds(ts, s2, 1);
        lemma_line_end_bounds(ts, i);
    }
}

/// The top-level constructs parsed from `ts[i..]`, in order. Dispatch is on
/// the token at the cursor; each construct consumes a token range and the
/// scan continues after it. An `Else` too close to the end of the sequence
/// stops the scan; a bare identifier not followed by an opening brace is
/// passed over.
pub open spec fn parse_items(ts: Seq<TokenView>, i: int) -> Seq<NodeView>
    decreases 3 * ts.len() + 1, ts.len() - i,
    via parse_items_dec
{
    if !(0 <= i < ts.len()) {
        seq![]
    } else if ts[i] is Else && i + 2 >= ts.len() {
        seq![]
    } else if ts[i] is Identifier && !(i + 1 < ts.len() && ts[i + 1] is LeftCurlyBracket) {
        parse_items(ts, i + 1)
    } else {
        seq![parse_item_at(ts, i)] + parse_items(ts, parse_next(ts, i))
    }
}

#[via_fn]
proof fn parse_items_dec(ts: Seq<TokenView>, i: int) {
    lemma_parse_next_bounds(ts, i);
}

/// The whole token sequence parsed as a program: the root is always a
/// `Program` node whose children are the top-level constructs.
pub open spec fn parse_spec(ts: Seq<TokenView>) -> NodeView
    decreases 3 * ts.len() + 2, 0int,
{
    NodeView { token: TokenView::Program, children: parse_items(ts, 0) }
}

/// For every token sequence (well-lexed or not, truncated or not), building
/// the tree terminates — `parse` is a verified total function — and the root
/// it returns is a `Program` node.
pub proof fn lemma_parse_returns_program(ts: Seq<TokenView>)
    ensures
        parse_spec(ts).token == TokenView::Program,
{
}

/// The parsed function definitions of a structure body: the tokens from `j`
/// on, split at semicolon boundaries into groups (a semicolon appended to
/// each), each group independently re-parsed as a program.
pub open spec fn funcs(b: Seq<TokenView>, j: int) -> Seq<NodeView>
    decreases 3 * (b.len() - j) + 5, 1int,
    via funcs_dec
{
    if !(0 <= j < b.len()) {
        seq![]
    } else {
        let se = line_end(b, j);
        let group = b.subrange(j, se).push(TokenView::SemiColon);
        seq![parse_spec(group)] + funcs(b, se + 1)
    }
}

#[via_fn]
proof fn funcs_dec(b: Seq<TokenView>, j: int) {
    lemma_line_end_bounds(b, j);
}

pub proof fn lemma_nodes_views_push(v: Seq<Node>, n: Node)
    ensures
        nodes_views(v.push(n)) == nodes_views(v).push(n@),
{
    lemma_nodes_views(v);
    lemma_nodes_views(v.push(n));
    assert(nodes_views(v.push(n)) =~= nodes_views(v).push(n@));
}

fn leaf_node(t: &Token) -> (n: Node)
    ensures
        n@ == leaf(t@),
{
    let n = Node { token: t.clone(), children: Vec::new() };
    proof {
        assert(n@.children =~= leaf(t@).children);
    }
    n
}

fn is_semi(t: &Token) -> (r: bool)
    ensures
        r == (t@ is SemiColon),
{
    matches!(t, Token::SemiColon)
}

/// One statement line scanned from `i`: the `Line` node and the position
/// where the scan continues (one past the splitting semicolon).
fn scan_line(toks: &Vec<Token>, i: usize) -> (r: (Node, usize))
    requires
        i < toks@.len(),
    ensures
        r.0@ == line_node(toks.deep_view(), i as int),
        r.1 as int == ({
            let le = line_end(toks.deep_view(), i as int);
            if le < toks.deep_view().len() {
                le + 1
            } else {
                toks.deep_view().len() as int
            }
        }),
        i < r.1 <= toks@.len(),
{
    let ghost ts = toks.deep_view();
    let mut cs: Vec<Node> = Vec::new();
    let mut j = i;
    while j < toks.len() && !is_semi(&toks[j])
        invariant
            ts == toks.deep_view(),
            i <= j <= toks@.len(),
            line_end(ts, j as int) == line_end(ts, i as int),
            nodes_views(cs@) == leaves(ts, i as int, j as int),
        decreases toks@.len() - j,
    {
        let ghost cs0 = cs@;
        cs.push(leaf_node(&toks[j]));
        proof {
            lemma_nodes_views_push(cs0, cs@.last());
            assert(nodes_views(cs@) =~= leaves(ts, i as int, j as int + 1));
        }
        j = j + 1;
    }
    proof {
        assert(j as int == line_end(ts, i as int));
    }
    let ghost cs1 = cs@;
    cs.push(Node { token: Token::SemiColon, children: Vec::new() });
    proof {
        lemma_nodes_views_push(cs1, cs@.last());
        assert(cs@.last()@.children =~= leaf(TokenView::SemiColon).children);
    }
    let node = Node { token: Token::Line, children: cs };
    let nx = if j < toks.len() {
        j + 1
    } else {
        toks.len()
    };
    (node, nx)
}

/// Depth-counted body scan starting at `i` with depth one: the `Line` nodes
/// of the body and the position after its closing brace (or the end).
fn scan_depth_block(toks: &Vec<Token>, i: usize) -> (r: (Vec<Node>, usize))
    requires
        i <= toks@.len(),
    ensures
        nodes_views(r.0@) == depth_lines(toks.deep_view(), i as int, 1).0,
        r.1 as int == depth_lines(toks.deep_view(), i as int, 1).1,
        i <= r.1 <= toks@.len(),
{
    let ghost ts = toks.deep_view();
    let mut out: Vec<Node> = Vec::new();
    let mut cur: Vec<Node> = Vec::new();
    let mut ls = i;
    let mut k = i;
    let mut dm1: usize = 0;
    let ghost mut dls: int = 1;
    let mut done = false;
    let mut nx = i;
    proof {
        lemma_depth_lines_bounds(ts, i as int, 1);
    }
    while !done && k < toks.len()
        invariant
            ts == toks.deep_view(),
            i <= ls <= k <= toks@.len(),
            done ==> nodes_views(out@) == depth_lines(ts, i as int, 1).0 && nx as int
                == depth_lines(ts, i as int, 1).1 && i <= nx <= toks@.len(),
            !done ==> dls >= 1,
            !done ==> dm1 <= k - i,
            !done ==> dm1 + 1 == dls + brace_sum(ts, ls as int, k as int),
            !done ==> depth_lines(ts, i as int, 1).0 == nodes_views(out@) + depth_lines(
                ts,
                ls as int,
                dls,
            ).0,
            !done ==> depth_lines(ts, i as int, 1).1 == depth_lines(ts, ls as int, dls).1,
            !done ==> nodes_views(cur@) == leaves(ts, ls as int, k as int),
            !done ==> line_end(ts, ls as int) == line_end(ts, k as int),
            !done ==> close_pos(ts, ls as int, dls) == close_pos(ts, k as int, dm1 + 1),
        decreases 2 * (toks@.len() - k) + (if done {
            0int
        } else {
            1int
        }),
    {
        let t = &toks[k];
        if is_semi(t) {
            proof {
                assert(line_end(ts, k as int) == k as int);
                assert(close_pos(ts, k as int, dm1 + 1) == close_pos(ts, k as int + 1, dm1 + 1));
                lemma_close_pos_bounds(ts, k as int + 1, dm1 + 1);
                lemma_brace_sum_snoc(ts, ls as int, k as int);
                assert(brace_sum(ts, ls as int, k as int + 1) == brace_sum(ts, ls as int, k as int)
                    + brace_delta(ts[k as int]));
            }
            let mut line = cur;
            let ghost l0 = line@;
            line.push(Node { token: Token::SemiColon, children: Vec::new() });
            proof {
                lemma_nodes_views_push(l0, line@.last());
                assert(line@.last()@.children =~= leaf(TokenView::SemiColon).children);
            }
            let node = Node { token: Token::Line, children: line };
            let ghost o0 = out@;
            out.push(node);
            proof {
                lemma_nodes_views_push(o0, node);
                assert(node@ == line_node(ts, ls as int));
                assert(depth_lines(ts, ls as int, dls).0 == seq![line_node(ts, ls as int)]
                    + depth_lines(ts, k as int + 1, dm1 + 1).0);
                assert(nodes_views(out@) + depth_lines(ts, k as int + 1, dm1 + 1).0
                    =~= nodes_views(o0) + depth_lines(ts, ls as int, dls).0);
                dls = dm1 + 1;
            }
            cur = Vec::new();
            proof {
                assert(nodes_views(cur@) =~= leaves(ts, k as int + 1, k as int + 1));
            }
            k = k + 1;
            ls = k;
        } else {
            let is_open = matches!(t, Token::LeftCurlyBracket);
            let is_close = matches!(t, Token::RightCurlyBracket);
            if is_close && dm1 == 0 {
                proof {
                    assert(close_pos(ts, k as int, 1) == k as int);
                    lemma_line_end_bounds(ts, k as int + 1);
                    assert(line_end(ts, k as int) == line_end(ts, k as int + 1));
                    assert(close_pos(ts, ls as int, dls) < line_end(ts, ls as int));
                    assert(depth_lines(ts, ls as int, dls) == (
                        flush_line(ts, ls as int, k as int),
                        k as int + 1,
                    ));
                }
                if cur.len() > 0 {
                    let mut line = cur;
                    let ghost l0 = line@;
                    line.push(Node { token: Token::SemiColon, children: Vec::new() });
                    proof {
                        lemma_nodes_views_push(l0, line@.last());
                        assert(line@.last()@.children =~= leaf(TokenView::SemiColon).children);
                    }
                    let node = Node { token: Token::Line, children: line };
                    let ghost o0 = out@;
                    out.push(node);
                    proof {
                        lemma_nodes_views(l0);
                        assert(k > ls);
                        lemma_nodes_views_push(o0, node);
                        assert(node@ == flush_line(ts, ls as int, k as int)[0]);
                        assert(nodes_views(out@) =~= nodes_views(o0) + flush_line(
                            ts,
                            ls as int,
                            k as int,
                        ));
                    }
                    cur = Vec::new();
                } else {
                    proof {
                        lemma_nodes_views(cur@);
                        assert(k == ls);
                        assert(flush_line(ts, ls as int, k as int) =~= Seq::<NodeView>::empty());
                        assert(nodes_views(out@) + flush_line(ts, ls as int, k as int)
                            =~= nodes_views(out@));
                    }
                }
                nx = k + 1;
                done = true;
            } else {
                proof {
                    assert(toks.len() == toks@.len());
                }
                let d2m1 = if is_open {
                    dm1 + 1
                } else if is_close {
                    dm1 - 1
                } else {
                    dm1
                };
                proof {
                    lemma_brace_sum_snoc(ts, ls as int, k as int);
                    assert(dm1 + 1 + brace_delta(ts[k as int]) == d2m1 + 1);
                    assert(close_pos(ts, k as int, dm1 + 1) == close_pos(
                        ts,
                        k as int + 1,
                        d2m1 + 1,
                    ));
                    assert(line_end(ts, k as int) == line_end(ts, k as int + 1));
                    assert(brace_sum(ts, ls as int, k as int + 1) == brace_sum(
                        ts,
                        ls as int,
                        k as int,
                    ) + brace_delta(ts[k as int]));
                }
                let ghost c0 = cur@;
                cur.push(leaf_node(t));
                proof {
                    lemma_nodes_views_push(c0, cur@.last());
                    assert(nodes_views(cur@) =~= leaves(ts, ls as int, k as int + 1));
                }
                dm1 = d2m1;
                k = k + 1;
            }
        }
    }
    if !done {
        proof {
            assert(k == toks@.len());
            lemma_close_pos_bounds(ts, ls as int, dls);
            lemma_line_end_bounds(ts, ls as int);
        }
        if ls < toks.len() {
            proof {
                assert(line_end(ts, ls as int) == toks@.len() as int);
                assert(close_pos(ts, ls as int, dls) == toks@.len() as int);
                assert(depth_lines(ts, ls as int, dls) == (
                    flush_line(ts, ls as int, toks@.len() as int),
                    toks@.len() as int,
                ));
            }
            let mut line = cur;
            let ghost l0 = line@;
            line.push(Node { token: Token::SemiColon, children: Vec::new() });
            proof {
                lemma_nodes_views_push(l0, line@.last());
                assert(line@.last()@.children =~= leaf(TokenView::SemiColon).children);
            }
            let node = Node { token: Token::Line, children: line };
            let ghost o0 = out@;
            out.push(node);
            proof {
                lemma_nodes_views_push(o0, node);
                assert(node@ == flush_line(ts, ls as int, toks@.len() as int)[0]);
                assert(nodes_views(out@) =~= nodes_views(o0) + flush_line(
                    ts,
                    ls as int,
                    toks@.len() as int,
                ));
            }
        } else {
            proof {
                assert(depth_lines(ts, ls as int, dls).0 =~= Seq::<NodeView>::empty());
                assert(nodes_views(out@) + Seq::<NodeView>::empty() =~= nodes_views(out@));
            }
        }
        nx = toks.len();
    }
    (out, nx)
}

/// Depth-counted raw extraction starting at `i` with depth one: the enclosed
/// tokens (closing brace excluded) and the position after the scan.
fn extract_balanced(toks: &Vec<Token>, i: usize) -> (r: (Vec<Token>, usize))
    requires
        i <= toks@.len(),
    ensures
        r.0.deep_view() == extract(toks.deep_view(), i as int, 1).0,
        r.1 as int == extract(toks.deep_view(), i as int, 1).1,
        i <= r.1 <= toks@.len(),
        r.0@.len() <= toks@.len() - i,
{
    let ghost ts = toks.deep_view();
    let mut out: Vec<Token> = Vec::new();
    let mut j = i;
    let mut dm1: usize = 0;
    let mut closed = false;
    proof {
        lemma_extract_bounds(ts, i as int, 1);
    }
    while !closed && j < toks.len()
        invariant
            ts == toks.deep_view(),
            i <= j <= toks@.len(),
            out@.len() <= j - i,
            !closed ==> dm1 <= j,
            !closed ==> extract(ts, i as int, 1).0 == out.deep_view() + extract(
                ts,
                j as int,
                dm1 + 1,
            ).0,
            !closed ==> extract(ts, i as int, 1).1 == extract(ts, j as int, dm1 + 1).1,
            closed ==> extract(ts, i as int, 1).0 == out.deep_view() && extract(
                ts,
                i as int,
                1,
            ).1 == j as int,
        decreases toks@.len() - j,
    {
        let ghost d = dm1 + 1int;
        let is_open = matches!(&toks[j], Token::LeftCurlyBracket);
        let is_close = matches!(&toks[j], Token::RightCurlyBracket);
        if is_close && dm1 == 0 {
            proof {
                assert(extract(ts, j as int, d) == (Seq::<TokenView>::empty(), j + 1int));
                assert(out.deep_view() + Seq::<TokenView>::empty() =~= out.deep_view());
            }
            j = j + 1;
            closed = true;
        } else {
            let d2m1 = if is_open {
                dm1 + 1
            } else if is_close {
                dm1 - 1
            } else {
                dm1
            };
            proof {
                assert(d + brace_delta(ts[j as int]) == d2m1 + 1);
            }
            let ghost out0 = out.deep_view();
            out.push(toks[j].clone());
            proof {
                assert(out.deep_view() =~= out0.push(ts[j as int]));
                assert(extract(ts, j as int, d).0 == seq![ts[j as int]] + extract(
                    ts,
                    j + 1int,
                    d2m1 + 1,
                ).0);
                assert(out.deep_view() + extract(ts, j + 1int, d2m1 + 1).0 =~= out0 + extract(
                    ts,
                    j as int,
                    d,
                ).0);
            }
            j = j + 1;
            dm1 = d2m1;
        }
    }
    proof {
        if !closed {
            assert(extract(ts, j as int, dm1 + 1).0 =~= Seq::<TokenView>::empty());
            assert(out.deep_view() + Seq::<TokenView>::empty() =~= out.deep_view());
        }
        assert(out@.len() == out.deep_view().len());
    }
    (out, j)
}

/// Drops one trailing end-of-input token from an extracted body.
fn strip_eof_exec(b: Vec<Token>) -> (r: Vec<Token>)
    ensures
        r.deep_view() == strip_eof(b.deep_view()),
        r@.len() <= b@.len(),
{
    let mut b = b;
    let n = b.len();
    if n > 0 && matches!(&b[n - 1], Token::EOF) {
        let ghost b0 = b.deep_view();
        b.pop();
        proof {
            assert(b.deep_view() =~= b0.drop_last());
            assert(b0.last() is EOF);
        }
    }
    b
}

/// Leaf nodes for the tokens from `i` up to the next opening curly bracket.
fn collect_cond(toks: &Vec<Token>, i: usize) -> (r: (Vec<Node>, usize))
    requires
        i <= toks@.len(),
    ensures
        nodes_views(r.0@) == leaves(toks.deep_view(), i as int, cond_end(toks.deep_view(), i as int)),
        r.1 as int == cond_end(toks.deep_view(), i as int),
        i <= r.1 <= toks@.len(),
{
    let ghost ts = toks.deep_view();
    let mut cs: Vec<Node> = Vec::new();
    let mut j = i;
    while j < toks.len() && !matches!(&toks[j], Token::LeftCurlyBracket)
        invariant
            ts == toks.deep_view(),
            i <= j <= toks@.len(),
            cond_end(ts, j as int) == cond_end(ts, i as int),
            nodes_views(cs@) == leaves(ts, i as int, j as int),
        decreases toks@.len() - j,
    {
        let ghost cs0 = cs@;
        cs.push(leaf_node(&toks[j]));
        proof {
            lemma_nodes_views_push(cs0, cs@.last());
            assert(nodes_views(cs@) =~= leaves(ts, i as int, j as int + 1));
        }
        j = j + 1;
    }
    (cs, j)
}

/// Leaf nodes for the tokens from `i` up to the next closing parenthesis.
fn collect_args(toks: &Vec<Token>, i: usize) -> (r: (Vec<Node>, usize))
    requires
        i <= toks@.len(),
    ensures
        nodes_views(r.0@) == leaves(
            toks.deep_view(),
            i as int,
            rparen_end(toks.deep_view(), i as int),
        ),
        r.1 as int == rparen_end(toks.deep_view(), i as int),
        i <= r.1 <= toks@.len(),
{
    let ghost ts = toks.deep_view();
    let mut cs: Vec<Node> = Vec::new();
    let mut j = i;
    while j < toks.len() && !matches!(&toks[j], Token::RightParen)
        invariant
            ts == toks.deep_view(),
            i <= j <= toks@.len(),
            rparen_end(ts, j as int) == rparen_end(ts, i as int),
            nodes_views(cs@) == leaves(ts, i as int, j as int),
        decreases toks@.len() - j,
    {
        let ghost cs0 = cs@;
        cs.push(leaf_node(&toks[j]));
        proof {
            lemma_nodes_views_push(cs0, cs@.last());
            assert(nodes_views(cs@) =~= leaves(ts, i as int, j as int + 1));
        }
        j = j + 1;
    }
    (cs, j)
}

/// Leaf nodes for the tokens of a structure body up to the first function
/// keyword: the structure's field tokens.
fn collect_fields(toks: &Vec<Token>) -> (r: (Vec<Node>, usize))
    ensures
        nodes_views(r.0@) == leaves(toks.deep_view(), 0, fields_end(toks.deep_view(), 0)),
        r.1 as int == fields_end(toks.deep_view(), 0),
        r.1 <= toks@.len(),
{
    let ghost ts = toks.deep_view();
    let mut cs: Vec<Node> = Vec::new();
    let mut j: usize = 0;
    while j < toks.len() && !matches!(&toks[j], Token::Fn)
        invariant
            ts == toks.deep_view(),
            j <= toks@.len(),
            fields_end(ts, j as int) == fields_end(ts, 0),
            nodes_views(cs@) == leaves(ts, 0, j as int),
        decreases toks@.len() - j,
    {
        let ghost cs0 = cs@;
        cs.push(leaf_node(&toks[j]));
        proof {
            lemma_nodes_views_push(cs0, cs@.last());
            assert(nodes_views(cs@) =~= leaves(ts, 0, j as int + 1));
        }
        j = j + 1;
    }
    (cs, j)
}

/// One conditional branch: condition tokens up to the opening brace, then a
/// depth-matched `Block` of `Line` nodes.
fn parse_if_at(toks: &Vec<Token>, i: usize) -> (r: (Node, usize))
    requires
        i < toks@.len(),
        toks.deep_view()[i as int] is If,
    ensures
        r.0@ == parse_item_at(toks.deep_view(), i as int),
        r.1 as int == parse_next(toks.deep_view(), i as int),
        i < r.1 <= toks@.len(),
{
    let ghost ts = toks.deep_view();
    proof {
        assert(toks.len() == toks@.len());
    }
    let (mut children, ce) = collect_cond(toks, i + 1);
    let bs = if toks.len() - ce > 1 {
        ce + 1
    } else {
        toks.len()
    };
    let (blines, nx) = scan_depth_block(toks, bs);
    let ghost cv = nodes_views(children@);
    let blk = Node { token: Token::Block, children: blines };
    let ghost ch0 = children@;
    children.push(blk);
    let node = Node { token: Token::If, children };
    proof {
        lemma_parse_next_bounds(ts, i as int);
        lemma_nodes_views_push(ch0, blk);
        assert(blk@ == block_node(depth_lines(ts, bs as int, 1).0));
        assert(node@.children == cv.push(blk@));
        assert(node@ == parse_item_at(ts, i as int));
        assert(nx as int == parse_next(ts, i as int));
    }
    (node, nx)
}

/// One else branch: structurally a conditional branch without condition
/// tokens. The caller rules out an `Else` too close to the end.
fn parse_else_at(toks: &Vec<Token>, i: usize) -> (r: (Node, usize))
    requires
        i < toks@.len(),
        toks.deep_view()[i as int] is Else,
        i + 2 < toks@.len(),
    ensures
        r.0@ == parse_item_at(toks.deep_view(), i as int),
        r.1 as int == parse_next(toks.deep_view(), i as int),
        i < r.1 <= toks@.len(),
{
    let ghost ts = toks.deep_view();
    proof {
        assert(toks.len() == toks@.len());
    }
    let (blines, nx) = scan_depth_block(toks, i + 2);
    let blk = Node { token: Token::Block, children: blines };
    let mut children: Vec<Node> = Vec::new();
    children.push(blk);
    let node = Node { token: Token::Else, children };
    proof {
        lemma_parse_next_bounds(ts, i as int);
        lemma_nodes_views_push(Seq::<Node>::empty(), blk);
        assert(nodes_views(Seq::<Node>::empty()) =~= Seq::<NodeView>::empty());
        assert(node@.children =~= seq![block_node(depth_lines(ts, i as int + 2, 1).0)]);
        assert(node@ == parse_item_at(ts, i as int));
        assert(nx as int == parse_next(ts, i as int));
    }
    (node, nx)
}

/// One bare brace block, parsed the same way as a branch body.
fn parse_block_at(toks: &Vec<Token>, i: usize) -> (r: (Node, usize))
    requires
        i < toks@.len(),
        toks.deep_view()[i as int] is LeftCurlyBracket,
    ensures
        r.0@ == parse_item_at(toks.deep_view(), i as int),
        r.1 as int == parse_next(toks.deep_view(), i as int),
        i < r.1 <= toks@.len(),
{
    let ghost ts = toks.deep_view();
    proof {
        assert(toks.len() == toks@.len());
    }
    let (blines, nx) = scan_depth_block(toks, i + 1);
    let node = Node { token: Token::Block, children: blines };
    proof {
        lemma_parse_next_bounds(ts, i as int);
        assert(node@ == parse_item_at(ts, i as int));
        assert(nx as int == parse_next(ts, i as int));
    }
    (node, nx)
}

/// One structure definition: name, depth-matched brace-stripped body, a flat
/// `Fields` run up to the first function keyword, then semicolon-separated
/// function groups each re-parsed recursively.
fn parse_struct_at(toks: &Vec<Token>, i: usize) -> (r: (Node, usize))
    requires
        i < toks@.len(),
        toks.deep_view()[i as int] is Struct,
    ensures
        r.0@ == parse_item_at(toks.deep_view(), i as int),
        r.1 as int == parse_next(toks.deep_view(), i as int),
        i < r.1 <= toks@.len(),
    decreases toks@.len(), 0int,
{
    let ghost ts = toks.deep_view();
    let mut children: Vec<Node> = Vec::new();
    if toks.len() - i > 1 {
        children.push(leaf_node(&toks[i + 1]));
    }
    let s3 = if toks.len() - i > 3 {
        i + 3
    } else {
        toks.len()
    };
    let (raw, nx) = extract_balanced(toks, s3);
    let b = strip_eof_exec(raw);
    let ghost bv = b.deep_view();
    let (fields_vec, fe) = collect_fields(&b);
    let fields = Node { token: Token::Fields, children: fields_vec };
    let mut fns_vec: Vec<Node> = Vec::new();
    let mut j = fe;
    proof {
        lemma_fields_end_bounds(bv, 0);
        assert(funcs(bv, fe as int) == nodes_views(fns_vec@) + funcs(bv, j as int));
    }
    while j < b.len()
        invariant
            ts == toks.deep_view(),
            bv == b.deep_view(),
            i < toks@.len(),
            b@.len() + 2 <= toks@.len() || b@.len() == 0,
            j <= b@.len() + 1,
            fe <= b@.len(),
            funcs(bv, fe as int) == nodes_views(fns_vec@) + funcs(bv, j as int),
        decreases b@.len() + 1 - j,
    {
        let mut group: Vec<Token> = Vec::new();
        let mut k = j;
        while k < b.len() && !is_semi(&b[k])
            invariant
                bv == b.deep_view(),
                j <= k <= b@.len(),
                line_end(bv, k as int) == line_end(bv, j as int),
                group.deep_view() == bv.subrange(j as int, k as int),
            decreases b@.len() - k,
        {
            let ghost g0 = group.deep_view();
            group.push(b[k].clone());
            proof {
                assert(group.deep_view() =~= g0.push(bv[k as int]));
                assert(bv.subrange(j as int, k as int + 1) =~= bv.subrange(j as int, k as int)
                    .push(bv[k as int]));
            }
            k = k + 1;
        }
        group.push(Token::SemiColon);
        proof {
            assert(k as int == line_end(bv, j as int));
            assert(group.deep_view() =~= bv.subrange(j as int, k as int).push(
                TokenView::SemiColon,
            ));
            assert(group@.len() < toks@.len());
        }
        let sub = parse(group);
        let ghost f0 = fns_vec@;
        fns_vec.push(sub);
        proof {
            lemma_nodes_views_push(f0, sub);
            assert(funcs(bv, j as int) == seq![
                parse_spec(bv.subrange(j as int, k as int).push(TokenView::SemiColon)),
            ] + funcs(bv, k as int + 1));
            assert(nodes_views(fns_vec@) + funcs(bv, k as int + 1) =~= nodes_views(f0) + funcs(
                bv,
                j as int,
            ));
        }
        proof {
            assert(b.len() == b@.len());
            assert(toks.len() == toks@.len());
        }
        j = k + 1;
    }
    proof {
        assert(funcs(bv, j as int) =~= Seq::<NodeView>::empty());
        assert(funcs(bv, fe as int) =~= nodes_views(fns_vec@));
    }
    let fns = Node { token: Token::Functions, children: fns_vec };
    let ghost chn = children@;
    children.push(fields);
    children.push(fns);
    let node = Node { token: Token::Struct, children };
    proof {
        lemma_parse_next_bounds(ts, i as int);
        lemma_nodes_views(chn);
        lemma_nodes_views_push(chn, fields);
        lemma_nodes_views_push(chn.push(fields), fns);
        if i as int + 3 < ts.len() {
            assert(node@.children =~= parse_item_at(ts, i as int).children);
        } else {
            assert(bv =~= Seq::<TokenView>::empty());
            assert(funcs(bv, fe as int) =~= Seq::<NodeView>::empty());
            assert(node@.children =~= parse_item_at(ts, i as int).children);
        }
        assert(node@ == parse_item_at(ts, i as int));
        assert(nx as int == parse_next(ts, i as int));
    }
    (node, nx)
}

/// One function definition: name, flat `Arguments` run, return type, then a
/// depth-matched brace-stripped body re-parsed recursively inside a `Block`.
fn parse_fn_at(toks: &Vec<Token>, i: usize) -> (r: (Node, usize))
    requires
        i < toks@.len(),
        toks.deep_view()[i as int] is Fn,
    ensures
        r.0@ == parse_item_at(toks.deep_view(), i as int),
        r.1 as int == parse_next(toks.deep_view(), i as int),
        i < r.1 <= toks@.len(),
    decreases toks@.len(), 0int,
{
    let ghost ts = toks.deep_view();
    let mut children: Vec<Node> = Vec::new();
    if toks.len() - i > 1 {
        children.push(leaf_node(&toks[i + 1]));
    }
    let s = if toks.len() - i > 3 {
        i + 3
    } else {
        toks.len()
    };
    let (args_vec, pe) = collect_args(toks, s);
    let args = Node { token: Token::Arguments, children: args_vec };
    let ghost chn = children@;
    children.push(args);
    proof {
        lemma_nodes_views_push(chn, args);
    }
    if toks.len() - pe > 2 {
        let ghost chr = children@;
        children.push(leaf_node(&toks[pe + 2]));
        proof {
            lemma_nodes_views_push(chr, children@.last());
        }
    }
    let s4 = if toks.len() - pe > 4 {
        pe + 4
    } else {
        toks.len()
    };
    let (raw, nx) = extract_balanced(toks, s4);
    let b = strip_eof_exec(raw);
    proof {
        assert(b@.len() < toks@.len());
    }
    let sub = parse(b);
    let mut blk_children: Vec<Node> = Vec::new();
    blk_children.push(sub);
    let blk = Node { token: Token::Block, children: blk_children };
    let ghost chb = children@;
    children.push(blk);
    let node = Node { token: Token::Fn, children };
    proof {
        lemma_parse_next_bounds(ts, i as int);
        lemma_nodes_views_push(Seq::<Node>::empty(), sub);
        assert(nodes_views(Seq::<Node>::empty()) =~= Seq::<NodeView>::empty());
        lemma_nodes_views(chn);
        lemma_nodes_views(chb);
        lemma_nodes_views_push(chb, blk);
        assert(node@.children =~= parse_item_at(ts, i as int).children);
        assert(node@ == parse_item_at(ts, i as int));
        assert(nx as int == parse_next(ts, i as int));
    }
    (node, nx)
}

/// One inline structure definition (a bare identifier followed by an opening
/// brace): name, then the whole depth-matched body as a flat `Fields` run.
fn parse_ident_struct_at(toks: &Vec<Token>, i: usize) -> (r: (Node, usize))
    requires
        i < toks@.len(),
        toks.deep_view()[i as int] is Identifier,
        i + 1 < toks@.len(),
        toks.deep_view()[i as int + 1] is LeftCurlyBracket,
    ensures
        r.0@ == parse_item_at(toks.deep_view(), i as int),
        r.1 as int == parse_next(toks.deep_view(), i as int),
        i < r.1 <= toks@.len(),
{
    let ghost ts = toks.deep_view();
    let mut children: Vec<Node> = Vec::new();
    children.push(leaf_node(&toks[i]));
    let s2 = if toks.len() - i > 2 {
        i + 2
    } else {
        toks.len()
    };
    let (raw, nx) = extract_balanced(toks, s2);
    let b = strip_eof_exec(raw);
    let fields_vec = collect_all(&b);
    let fields = Node { token: Token::Fields, children: fields_vec };
    let ghost chn = children@;
    children.push(fields);
    let node = Node { token: Token::Struct, children };
    proof {
        lemma_parse_next_bounds(ts, i as int);
        lemma_nodes_views(chn);
        lemma_nodes_views_push(chn, fields);
        assert(node@.children =~= parse_item_at(ts, i as int).children);
        assert(node@ == parse_item_at(ts, i as int));
        assert(nx as int == parse_next(ts, i as int));
    }
    (node, nx)
}

/// Builds the syntax tree of a token sequence. The root is always a
/// `Program` node; nested bodies are sliced out by depth-counted brace
/// matching and re-parsed by recursive calls. Total over every token
/// sequence: a truncated construct is closed early instead of rejected.
pub fn parse(toks: Vec<Token>) -> (root: Node)
    ensures
        root@ == parse_spec(toks.deep_view()),
    decreases toks@.len(), 1int,
{
    let ghost ts = toks.deep_view();
    let mut nodes: Vec<Node> = Vec::new();
    let mut i: usize = 0;
    while i < toks.len()
        invariant
            ts == toks.deep_view(),
            i <= toks@.len(),
            parse_items(ts, 0) == nodes_views(nodes@) + parse_items(ts, i as int),
        decreases toks@.len() - i,
    {
        let ghost nodes0 = nodes@;
        let ghost i0 = i as int;
        let mut stop = false;
        let step: Option<(Node, usize)> = match &toks[i] {
            Token::If => Some(parse_if_at(&toks, i)),
            Token::Else => {
                if toks.len() - i > 2 {
                    Some(parse_else_at(&toks, i))
                } else {
                    stop = true;
                    None
                }
            },
            Token::LeftCurlyBracket => Some(parse_block_at(&toks, i)),
            Token::Struct => Some(parse_struct_at(&toks, i)),
            Token::Fn => Some(parse_fn_at(&toks, i)),
            Token::Identifier(_) => {
                if toks.len() - i > 1 && matches!(&toks[i + 1], Token::LeftCurlyBracket) {
                    Some(parse_ident_struct_at(&toks, i))
                } else {
                    None
                }
            },
            _ => Some(scan_line(&toks, i)),
        };
        match step {
            Some((node, nx)) => {
                proof {
                    assert(node@ == parse_item_at(ts, i0));
                    assert(nx as int == parse_next(ts, i0));
                    assert(parse_items(ts, i0) == seq![node@] + parse_items(ts, nx as int));
                }
                nodes.push(node);
                proof {
                    lemma_nodes_views_push(nodes0, nodes@.last());
                    assert(nodes_views(nodes@) + parse_items(ts, nx as int) =~= nodes_views(
                        nodes0,
                    ) + parse_items(ts, i0));
                }
                i = nx;
            },
            None => {
                if stop {
                    proof {
                        assert(parse_items(ts, i0) =~= Seq::<NodeView>::empty());
                    }
                    i = toks.len();
                } else {
                    proof {
                        assert(parse_items(ts, i0) == parse_items(ts, i0 + 1));
                    }
                    i = i + 1;
                }
            },
        }
    }
    proof {
        assert(parse_items(ts, toks@.len() as int) =~= Seq::<NodeView>::empty());
        assert(parse_items(ts, 0) =~= nodes_views(nodes@));
    }
    let root = Node { token: Token::Program, children: nodes };
    proof {
        assert(root@ == parse_spec(ts));
    }
    root
}

/// Leaf nodes for all tokens of an inline structure body.
fn collect_all(toks: &Vec<Token>) -> (r: Vec<Node>)
    ensures
        nodes_views(r@) == leaves(toks.deep_view(), 0, toks.deep_view().len() as int),
{
    let ghost ts = toks.deep_view();
    let mut cs: Vec<Node> = Vec::new();
    let mut j: usize = 0;
    while j < toks.len()
        invariant
            ts == toks.deep_view(),
            j <= toks@.len(),
            nodes_views(cs@) == leaves(ts, 0, j as int),
        decreases toks@.len() - j,
    {
        let ghost cs0 = cs@;
        cs.push(leaf_node(&toks[j]));
        proof {
            lemma_nodes_views_push(cs0, cs@.last());
            assert(nodes_views(cs@) =~= leaves(ts, 0, j as int + 1));
        }
        j = j + 1;
    }
    cs
}

} // verus!
