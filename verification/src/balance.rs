//! Brace accounting over the produced tree. The depth-matched scans are
//! exact: a body scan that finds its matching closing brace yields a `Block`
//! whose recursively summed brace count is zero, and on a brace-balanced
//! token sequence every `Block` built by a body scan nets zero and every
//! body sliced out by the extraction is itself balanced.

use vstd::prelude::*;

use crate::lex::TokenView;
use crate::parse::NodeView;
use crate::parse::block_node;
use crate::parse::cond_end;
use crate::parse::lemma_cond_end_bounds;
use crate::parse::lemma_parse_next_bounds;
use crate::parse::parse_item_at;
use crate::parse::parse_items;
use crate::parse::parse_next;
use crate::parse::parse_spec;
use crate::parse::brace_delta;
use crate::parse::brace_sum;
use crate::parse::close_pos;
use crate::parse::depth_lines;
use crate::parse::extract;
use crate::parse::fields_end;
use crate::parse::funcs;
use crate::parse::lemma_extract_bounds;
use crate::parse::lemma_fields_end_bounds;
use crate::parse::flush_line;
use crate::parse::leaf;
use crate::parse::leaves;
use crate::parse::lemma_brace_sum_snoc;
use crate::parse::lemma_close_pos_bounds;
use crate::parse::lemma_line_end_bounds;
use crate::parse::line_end;
use crate::parse::line_node;
use crate::parse::strip_eof;

verus! {

broadcast use vstd::seq::group_seq_axioms;

/// Net brace count of one subtree: the node's own token and all tokens below.
pub open spec fn tree_delta(n: NodeView) -> int
    decreases n,
{
    brace_delta(n.token) + forest_delta(n.children)
}

/// Net brace count of a sequence of subtrees.
pub open spec fn forest_delta(s: Seq<NodeView>) -> int
    decreases s,
{
    if s.len() == 0 {
        0
    } else {
        tree_delta(s[0]) + forest_delta(s.drop_first())
    }
}

/// Balanced brace structure: no prefix closes more braces than were opened
/// before it, and the whole sequence nets zero.
pub open spec fn balanced(ts: Seq<TokenView>) -> bool {
    &&& forall|p: int| 0 <= p <= ts.len() ==> brace_sum(ts, 0, p) >= 0
    &&& brace_sum(ts, 0, ts.len() as int) == 0
}

/// Every `Block` node of the tree carries a net brace count of zero.
pub open spec fn blocks_zero(n: NodeView) -> bool
    decreases n,
{
    &&& (n.token is Block ==> tree_delta(n) == 0)
    &&& forest_blocks_zero(n.children)
}

/// `blocks_zero`, over a sequence of subtrees.
pub open spec fn forest_blocks_zero(s: Seq<NodeView>) -> bool
    decreases s,
{
    if s.len() == 0 {
        true
    } else {
        blocks_zero(s[0]) && forest_blocks_zero(s.drop_first())
    }
}

/// A sequence in which the function keyword does not occur, so that no
/// construct re-enters the parser on a sliced sub-range: the fragment of
/// statement lines, branches, blocks and field-only structures.
pub open spec fn no_fn_tokens(ts: Seq<TokenView>) -> bool {
    forall|k: int| 0 <= k < ts.len() ==> !((#[trigger] ts[k]) is Fn)
}

/// In a sequence without the function keyword, a structure body is all
/// fields.
pub proof fn lemma_fields_end_all(ts: Seq<TokenView>, j: int)
    requires
        no_fn_tokens(ts),
        0 <= j <= ts.len(),
    ensures
        fields_end(ts, j) == ts.len(),
    decreases ts.len() - j,
{
    if j < ts.len() {
        lemma_fields_end_all(ts, j + 1);
    }
}

pub proof fn lemma_brace_sum_split(ts: Seq<TokenView>, i: int, j: int, k: int)
    requires
        i <= j <= k,
    ensures
        brace_sum(ts, i, k) == brace_sum(ts, i, j) + brace_sum(ts, j, k),
    decreases j - i,
{
    if i < j {
        lemma_brace_sum_split(ts, i + 1, j, k);
    }
}

/// The brace count of a slice is the brace count of the sliced range.
pub proof fn lemma_brace_sum_subrange(ts: Seq<TokenView>, a: int, b: int, q: int, p: int)
    requires
        0 <= a <= b <= ts.len(),
        0 <= q <= p <= b - a,
    ensures
        brace_sum(ts.subrange(a, b), q, p) == brace_sum(ts, a + q, a + p),
    decreases p - q,
{
    if q < p {
        lemma_brace_sum_subrange(ts, a, b, q + 1, p);
    }
}

pub proof fn lemma_forest_delta_concat(a: Seq<NodeView>, b: Seq<NodeView>)
    ensures
        forest_delta(a + b) == forest_delta(a) + forest_delta(b),
    decreases a.len(),
{
    if a.len() == 0 {
        assert(a + b =~= b);
    } else {
        assert((a + b).drop_first() =~= a.drop_first() + b);
        assert((a + b)[0] == a[0]);
        lemma_forest_delta_concat(a.drop_first(), b);
    }
}

pub proof fn lemma_forest_delta_push(s: Seq<NodeView>, n: NodeView)
    ensures
        forest_delta(s.push(n)) == forest_delta(s) + tree_delta(n),
{
    assert(s.push(n) =~= s + seq![n]);
    lemma_forest_delta_concat(s, seq![n]);
    assert(seq![n].drop_first() =~= Seq::<NodeView>::empty());
    assert(forest_delta(seq![n]) == tree_delta(n) + forest_delta(Seq::<NodeView>::empty()));
}

pub proof fn lemma_leaf_delta(t: TokenView)
    ensures
        tree_delta(leaf(t)) == brace_delta(t),
{
    assert(forest_delta(leaf(t).children) == 0);
}

/// A run of leaf nodes nets what its token range nets.
pub proof fn lemma_leaves_delta(ts: Seq<TokenView>, i: int, j: int)
    requires
        0 <= i <= j,
    ensures
        forest_delta(leaves(ts, i, j)) == brace_sum(ts, i, j),
    decreases j - i,
{
    if i < j {
        assert(leaves(ts, i, j)[0] == leaf(ts[i]));
        assert(leaves(ts, i, j).drop_first() =~= leaves(ts, i + 1, j));
        lemma_leaves_delta(ts, i + 1, j);
        lemma_leaf_delta(ts[i]);
    } else {
        assert(leaves(ts, i, j).len() == 0);
    }
}

/// A statement line nets what its source tokens net: the manufactured
/// semicolon contributes nothing.
pub proof fn lemma_line_node_delta(ts: Seq<TokenView>, i: int)
    requires
        0 <= i,
    ensures
        tree_delta(line_node(ts, i)) == brace_sum(ts, i, line_end(ts, i)),
{
    lemma_line_end_bounds(ts, i);
    lemma_leaves_delta(ts, i, line_end(ts, i));
    lemma_forest_delta_push(leaves(ts, i, line_end(ts, i)), leaf(TokenView::SemiColon));
    lemma_leaf_delta(TokenView::SemiColon);
}

pub proof fn lemma_flush_delta(ts: Seq<TokenView>, i: int, m: int)
    requires
        0 <= i <= m,
    ensures
        forest_delta(flush_line(ts, i, m)) == brace_sum(ts, i, m),
{
    if m > i {
        let n = flush_line(ts, i, m)[0];
        lemma_leaves_delta(ts, i, m);
        lemma_forest_delta_push(leaves(ts, i, m), leaf(TokenView::SemiColon));
        lemma_leaf_delta(TokenView::SemiColon);
        assert(flush_line(ts, i, m).drop_first() =~= Seq::<NodeView>::empty());
        assert(forest_delta(flush_line(ts, i, m)) == tree_delta(n) + forest_delta(
            Seq::<NodeView>::empty(),
        ));
    }
}

/// Along a depth scan the running depth stays positive until the close
/// position, and the token there is the closing brace that spends the whole
/// depth.
pub proof fn lemma_close_pos_char(ts: Seq<TokenView>, j: int, d: int)
    requires
        0 <= j <= ts.len(),
        d >= 1,
    ensures
        forall|m: int|
            j <= m <= close_pos(ts, j, d) && m <= ts.len() ==> d + brace_sum(ts, j, m) >= 1,
        close_pos(ts, j, d) < ts.len() ==> d + brace_sum(ts, j, close_pos(ts, j, d) + 1) == 0
            && d + brace_sum(ts, j, close_pos(ts, j, d)) == 1,
    decreases ts.len() - j,
{
    lemma_close_pos_bounds(ts, j, d);
    if j < ts.len() {
        let d2 = d + brace_delta(ts[j]);
        if d2 <= 0 {
            assert(brace_sum(ts, j, j) == 0);
            lemma_brace_sum_snoc(ts, j, j);
            assert(d + brace_sum(ts, j, j + 1) == d2);
            assert(d2 >= d - 1 >= 0);
        } else {
            lemma_close_pos_char(ts, j + 1, d2);
            let cp = close_pos(ts, j, d);
            assert forall|m: int|
                j <= m <= cp && m <= ts.len() implies d + brace_sum(ts, j, m) >= 1 by {
                if m > j {
                    assert(brace_sum(ts, j, m) == brace_delta(ts[j]) + brace_sum(ts, j + 1, m));
                    assert(d2 + brace_sum(ts, j + 1, m) >= 1);
                }
            }
            if cp < ts.len() {
                assert(brace_sum(ts, j, cp + 1) == brace_delta(ts[j]) + brace_sum(
                    ts,
                    j + 1,
                    cp + 1,
                ));
                assert(brace_sum(ts, j, cp) == brace_delta(ts[j]) + brace_sum(ts, j + 1, cp));
            }
        }
    }
}

/// Consuming tokens along a scan that has not closed yet leaves the close
/// position where it was.
pub proof fn lemma_close_pos_seg(ts: Seq<TokenView>, s: int, d: int, m: int)
    requires
        0 <= s <= m <= ts.len(),
        m <= close_pos(ts, s, d),
    ensures
        close_pos(ts, s, d) == close_pos(ts, m, d + brace_sum(ts, s, m)),
    decreases m - s,
{
    if s < m {
        let d2 = d + brace_delta(ts[s]);
        assert(close_pos(ts, s, d) == close_pos(ts, s + 1, d2));
        lemma_close_pos_seg(ts, s + 1, d2, m);
        assert(brace_sum(ts, s, m) == brace_delta(ts[s]) + brace_sum(ts, s + 1, m));
    }
}

pub proof fn lemma_line_end_char(ts: Seq<TokenView>, i: int)
    requires
        0 <= i,
    ensures
        line_end(ts, i) < ts.len() ==> ts[line_end(ts, i)] is SemiColon,
    decreases ts.len() - i,
{
    lemma_line_end_bounds(ts, i);
    if 0 <= i < ts.len() && !(ts[i] is SemiColon) {
        lemma_line_end_char(ts, i + 1);
    }
}

/// Exact accounting of a body scan: when the scan closes, its lines net
/// exactly the amount that cancels the starting depth; when it runs off the
/// end, its lines net what the rest of the sequence nets.
pub proof fn lemma_depth_lines_delta(ts: Seq<TokenView>, s: int, d: int)
    requires
        0 <= s <= ts.len(),
        d >= 1,
    ensures
        close_pos(ts, s, d) < ts.len() ==> forest_delta(depth_lines(ts, s, d).0) == 1 - d,
        close_pos(ts, s, d) == ts.len() ==> forest_delta(depth_lines(ts, s, d).0) == brace_sum(
            ts,
            s,
            ts.len() as int,
        ),
    decreases ts.len() - s,
{
    lemma_close_pos_bounds(ts, s, d);
    lemma_close_pos_char(ts, s, d);
    if s == ts.len() {
        assert(forest_delta(depth_lines(ts, s, d).0) == 0);
    } else {
        let le = line_end(ts, s);
        let cp = close_pos(ts, s, d);
        lemma_line_end_bounds(ts, s);
        lemma_line_end_char(ts, s);
        if cp < le {
            lemma_flush_delta(ts, s, cp);
            lemma_brace_sum_snoc(ts, s, cp);
            assert(d + brace_sum(ts, s, cp) == 1);
            assert(forest_delta(depth_lines(ts, s, d).0) == brace_sum(ts, s, cp));
        } else if le < ts.len() {
            let d2 = d + brace_sum(ts, s, le + 1);
            if cp < ts.len() {
                lemma_brace_sum_snoc(ts, s, cp);
                assert(brace_delta(ts[cp]) == -1);
                assert(cp != le);
            }
            assert(le + 1 <= cp);
            lemma_close_pos_seg(ts, s, d, le + 1);
            assert(d2 >= 1);
            lemma_depth_lines_delta(ts, le + 1, d2);
            lemma_line_node_delta(ts, s);
            lemma_forest_delta_concat(seq![line_node(ts, s)], depth_lines(ts, le + 1, d2).0);
            assert(seq![line_node(ts, s)].drop_first() =~= Seq::<NodeView>::empty());
            assert(seq![line_node(ts, s)][0] == line_node(ts, s));
            assert(forest_delta(Seq::<NodeView>::empty()) == 0);
            assert(forest_delta(seq![line_node(ts, s)]) == tree_delta(line_node(ts, s)));
            lemma_brace_sum_snoc(ts, s, le);
            assert(brace_delta(ts[le]) == 0);
            assert(brace_sum(ts, s, le + 1) == brace_sum(ts, s, le));
            if close_pos(ts, le + 1, d2) == ts.len() {
                lemma_brace_sum_split(ts, s, le + 1, ts.len() as int);
            }
        } else {
            assert(cp == ts.len());
            lemma_flush_delta(ts, s, ts.len() as int);
        }
    }
}

/// Brace-depth matching is exact: a conditional-branch, else-branch or bare
/// block body whose scan finds the matching closing brace yields a `Block`
/// node whose recursively summed brace count nets to zero, whatever the rest
/// of the input looks like.
pub proof fn lemma_closed_body_scan_nets_zero(ts: Seq<TokenView>, s: int)
    requires
        0 <= s <= ts.len(),
        close_pos(ts, s, 1) < ts.len(),
    ensures
        tree_delta(block_node(depth_lines(ts, s, 1).0)) == 0,
{
    lemma_depth_lines_delta(ts, s, 1);
    assert(tree_delta(block_node(depth_lines(ts, s, 1).0)) == forest_delta(
        depth_lines(ts, s, 1).0,
    ));
}

/// On an input with balanced braces, every `Block` a body scan builds nets
/// zero — also when the scan runs off the end of the sequence, since a
/// truncated scan covers the whole rest of the sequence and balance pins
/// that rest's net count to zero.
pub proof fn lemma_body_scan_balanced_nets_zero(ts: Seq<TokenView>, s: int)
    requires
        balanced(ts),
        0 <= s <= ts.len(),
    ensures
        tree_delta(block_node(depth_lines(ts, s, 1).0)) == 0,
{
    lemma_depth_lines_delta(ts, s, 1);
    lemma_close_pos_bounds(ts, s, 1);
    if close_pos(ts, s, 1) == ts.len() {
        lemma_close_pos_char(ts, s, 1);
        assert(1 + brace_sum(ts, s, ts.len() as int) >= 1);
        lemma_brace_sum_split(ts, 0, s, ts.len() as int);
        assert(brace_sum(ts, 0, s) >= 0);
        assert(brace_sum(ts, s, ts.len() as int) <= 0);
    }
    assert(tree_delta(block_node(depth_lines(ts, s, 1).0)) == forest_delta(
        depth_lines(ts, s, 1).0,
    ));
}

/// The extraction returns exactly the token range it scanned: up to the
/// matching closing brace when the scan closes, the whole rest otherwise.
pub proof fn lemma_extract_range(ts: Seq<TokenView>, s: int, d: int)
    requires
        0 <= s <= ts.len(),
        d >= 1,
    ensures
        close_pos(ts, s, d) < ts.len() ==> extract(ts, s, d).0 == ts.subrange(
            s,
            close_pos(ts, s, d),
        ) && extract(ts, s, d).1 == close_pos(ts, s, d) + 1,
        close_pos(ts, s, d) == ts.len() ==> extract(ts, s, d).0 == ts.subrange(
            s,
            ts.len() as int,
        ) && extract(ts, s, d).1 == ts.len(),
    decreases ts.len() - s,
{
    lemma_close_pos_bounds(ts, s, d);
    if s == ts.len() {
        assert(extract(ts, s, d).0 =~= ts.subrange(s, ts.len() as int));
    } else {
        let d2 = d + brace_delta(ts[s]);
        if d2 <= 0 {
            assert(extract(ts, s, d).0 =~= ts.subrange(s, s));
        } else {
            lemma_extract_range(ts, s + 1, d2);
            lemma_close_pos_bounds(ts, s + 1, d2);
            let cp = close_pos(ts, s, d);
            if cp < ts.len() {
                assert(extract(ts, s, d).0 =~= ts.subrange(s, cp));
            } else {
                assert(extract(ts, s, d).0 =~= ts.subrange(s, ts.len() as int));
            }
        }
    }
}

/// Every body the parser slices out of a balanced sequence — a function or
/// structure body between its braces — is itself balanced, so the recursive
/// re-parse works on balanced input again; stripping a trailing end-of-input
/// token keeps the balance.
pub proof fn lemma_extracted_body_balanced(ts: Seq<TokenView>, s: int)
    requires
        balanced(ts),
        0 <= s <= ts.len(),
    ensures
        balanced(strip_eof(extract(ts, s, 1).0)),
{
    let cp = close_pos(ts, s, 1);
    lemma_close_pos_bounds(ts, s, 1);
    lemma_close_pos_char(ts, s, 1);
    lemma_extract_range(ts, s, 1);
    let b = extract(ts, s, 1).0;
    let e = if cp < ts.len() {
        cp
    } else {
        ts.len() as int
    };
    assert(b == ts.subrange(s, e));
    // prefixes of the body stay at or above zero, and the whole nets zero
    assert forall|p: int| 0 <= p <= b.len() implies brace_sum(b, 0, p) >= 0 by {
        lemma_brace_sum_subrange(ts, s, e, 0, p);
        assert(1 + brace_sum(ts, s, s + p) >= 1);
    }
    lemma_brace_sum_subrange(ts, s, e, 0, e - s);
    if cp < ts.len() {
        assert(1 + brace_sum(ts, s, cp) == 1);
    } else {
        lemma_brace_sum_split(ts, 0, s, ts.len() as int);
        assert(brace_sum(ts, s, ts.len() as int) <= 0);
        assert(1 + brace_sum(ts, s, ts.len() as int) >= 1);
    }
    assert(balanced(b));
    let sb = strip_eof(b);
    if b.len() > 0 && b.last() is EOF {
        assert(sb =~= b.subrange(0, b.len() - 1));
        assert forall|p: int| 0 <= p <= sb.len() implies brace_sum(sb, 0, p) >= 0 by {
            lemma_brace_sum_subrange(b, 0, b.len() - 1, 0, p);
        }
        lemma_brace_sum_subrange(b, 0, b.len() - 1, 0, b.len() - 1);
        lemma_brace_sum_snoc(b, 0, b.len() - 1);
        assert(brace_delta(b.last()) == 0);
    }
}


pub proof fn lemma_forest_blocks_concat(a: Seq<NodeView>, b: Seq<NodeView>)
    ensures
        forest_blocks_zero(a + b) == (forest_blocks_zero(a) && forest_blocks_zero(b)),
    decreases a.len(),
{
    if a.len() == 0 {
        assert(a + b =~= b);
    } else {
        assert((a + b).drop_first() =~= a.drop_first() + b);
        assert((a + b)[0] == a[0]);
        lemma_forest_blocks_concat(a.drop_first(), b);
    }
}

pub proof fn lemma_forest_blocks_push(s: Seq<NodeView>, n: NodeView)
    ensures
        forest_blocks_zero(s.push(n)) == (forest_blocks_zero(s) && blocks_zero(n)),
{
    assert(s.push(n) =~= s + seq![n]);
    lemma_forest_blocks_concat(s, seq![n]);
    assert(seq![n].drop_first() =~= Seq::<NodeView>::empty());
    assert(forest_blocks_zero(Seq::<NodeView>::empty()));
    assert(forest_blocks_zero(seq![n]) == blocks_zero(n));
}

pub proof fn lemma_leaf_blocks(t: TokenView)
    ensures
        blocks_zero(leaf(t)),
{
    lemma_leaf_delta(t);
    assert(forest_blocks_zero(leaf(t).children));
}

pub proof fn lemma_leaves_blocks(ts: Seq<TokenView>, i: int, j: int)
    requires
        0 <= i <= j,
    ensures
        forest_blocks_zero(leaves(ts, i, j)),
    decreases j - i,
{
    if i < j {
        assert(leaves(ts, i, j)[0] == leaf(ts[i]));
        assert(leaves(ts, i, j).drop_first() =~= leaves(ts, i + 1, j));
        lemma_leaves_blocks(ts, i + 1, j);
        lemma_leaf_blocks(ts[i]);
    } else {
        assert(leaves(ts, i, j).len() == 0);
    }
}

pub proof fn lemma_line_node_blocks(ts: Seq<TokenView>, i: int)
    requires
        0 <= i,
    ensures
        blocks_zero(line_node(ts, i)),
{
    lemma_line_end_bounds(ts, i);
    lemma_leaves_blocks(ts, i, line_end(ts, i));
    lemma_leaf_blocks(TokenView::SemiColon);
    lemma_forest_blocks_push(leaves(ts, i, line_end(ts, i)), leaf(TokenView::SemiColon));
}

pub proof fn lemma_flush_blocks(ts: Seq<TokenView>, i: int, m: int)
    requires
        0 <= i <= m,
    ensures
        forest_blocks_zero(flush_line(ts, i, m)),
{
    if m > i {
        let n = flush_line(ts, i, m)[0];
        lemma_leaves_blocks(ts, i, m);
        lemma_leaf_blocks(TokenView::SemiColon);
        lemma_forest_blocks_push(leaves(ts, i, m), leaf(TokenView::SemiColon));
        assert(blocks_zero(n));
        assert(flush_line(ts, i, m).drop_first() =~= Seq::<NodeView>::empty());
        assert(forest_blocks_zero(Seq::<NodeView>::empty()));
    }
}

/// The lines of a body scan hold no `Block` node at all.
pub proof fn lemma_depth_lines_blocks(ts: Seq<TokenView>, s: int, d: int)
    requires
        0 <= s <= ts.len(),
    ensures
        forest_blocks_zero(depth_lines(ts, s, d).0),
    decreases ts.len() - s,
{
    if 0 <= s < ts.len() && d > 0 {
        let le = line_end(ts, s);
        let cp = close_pos(ts, s, d);
        lemma_line_end_bounds(ts, s);
        lemma_close_pos_bounds(ts, s, d);
        if cp < le {
            lemma_flush_blocks(ts, s, cp);
        } else if le < ts.len() {
            let d2 = d + brace_sum(ts, s, le + 1);
            lemma_line_node_blocks(ts, s);
            lemma_depth_lines_blocks(ts, le + 1, d2);
            lemma_forest_blocks_concat(seq![line_node(ts, s)], depth_lines(ts, le + 1, d2).0);
            assert(seq![line_node(ts, s)].drop_first() =~= Seq::<NodeView>::empty());
            assert(seq![line_node(ts, s)][0] == line_node(ts, s));
            assert(forest_blocks_zero(Seq::<NodeView>::empty()));
        } else {
            lemma_flush_blocks(ts, s, ts.len() as int);
        }
    }
}

/// A `Block` built by a body scan of a balanced sequence is zero throughout.
pub proof fn lemma_scan_block_zero(ts: Seq<TokenView>, s: int)
    requires
        balanced(ts),
        0 <= s <= ts.len(),
    ensures
        blocks_zero(block_node(depth_lines(ts, s, 1).0)),
{
    lemma_body_scan_balanced_nets_zero(ts, s);
    lemma_depth_lines_blocks(ts, s, 1);
}

/// For a balanced token sequence in which the function keyword does not
/// occur, every `Block` node anywhere in the constructs parsed from
/// position `i` on carries a net brace count of zero.
pub proof fn lemma_items_blocks_zero(ts: Seq<TokenView>, i: int)
    requires
        balanced(ts),
        no_fn_tokens(ts),
        0 <= i,
    ensures
        forest_blocks_zero(parse_items(ts, i)),
    decreases ts.len() - i,
{
    if i < ts.len() {
        lemma_parse_next_bounds(ts, i);
        let t = ts[i];
        let nx = parse_next(ts, i);
        if t is Else && i + 2 >= ts.len() {
            assert(forest_blocks_zero(parse_items(ts, i)));
        } else if t is Identifier && !(i + 1 < ts.len() && ts[i + 1] is LeftCurlyBracket) {
            lemma_items_blocks_zero(ts, i + 1);
        } else {
            let node = parse_item_at(ts, i);
            lemma_items_blocks_zero(ts, nx);
            if t is If {
                let ce = cond_end(ts, i + 1);
                let bs = if ce < ts.len() {
                    ce + 1
                } else {
                    ts.len() as int
                };
                lemma_cond_end_bounds(ts, i + 1);
                lemma_scan_block_zero(ts, bs);
                lemma_leaves_blocks(ts, i + 1, ce);
                lemma_forest_blocks_push(
                    leaves(ts, i + 1, ce),
                    block_node(depth_lines(ts, bs, 1).0),
                );
                assert(blocks_zero(node));
            } else if t is Else {
                lemma_scan_block_zero(ts, i + 2);
                let blk = block_node(depth_lines(ts, i + 2, 1).0);
                assert(node.children =~= Seq::<NodeView>::empty().push(blk));
                lemma_forest_blocks_push(Seq::<NodeView>::empty(), blk);
                assert(forest_blocks_zero(Seq::<NodeView>::empty()));
                assert(blocks_zero(node));
            } else if t is LeftCurlyBracket {
                lemma_scan_block_zero(ts, i + 1);
                assert(blocks_zero(node));
            } else if t is Struct {
                let s3 = if i + 3 < ts.len() {
                    i + 3
                } else {
                    ts.len() as int
                };
                let b = strip_eof(extract(ts, s3, 1).0);
                lemma_extract_bounds(ts, s3, 1);
                lemma_extract_range(ts, s3, 1);
                let b0 = extract(ts, s3, 1).0;
                let cp = close_pos(ts, s3, 1);
                lemma_close_pos_bounds(ts, s3, 1);
                if cp < ts.len() {
                    assert(b0 == ts.subrange(s3, cp));
                } else {
                    assert(b0 == ts.subrange(s3, ts.len() as int));
                }
                assert forall|k: int| 0 <= k < b.len() implies !((#[trigger] b[k]) is Fn) by {
                    assert(b[k] == b0[k]);
                    assert(b0[k] == ts[s3 + k]);
                }
                lemma_fields_end_bounds(b, 0);
                lemma_fields_end_all(b, 0);
                let fe = fields_end(b, 0);
                assert(funcs(b, fe) =~= Seq::<NodeView>::empty());
                let fields = NodeView { token: TokenView::Fields, children: leaves(b, 0, fe) };
                let fns = NodeView {
                    token: TokenView::Functions,
                    children: if i + 3 < ts.len() {
                        funcs(b, fe)
                    } else {
                        seq![]
                    },
                };
                lemma_leaves_blocks(b, 0, fe);
                assert(blocks_zero(fields));
                assert(fns.children =~= Seq::<NodeView>::empty());
                assert(blocks_zero(fns));
                let nm: Seq<NodeView> = if i + 1 < ts.len() {
                    seq![leaf(ts[i + 1])]
                } else {
                    seq![]
                };
                if i + 1 < ts.len() {
                    lemma_leaf_blocks(ts[i + 1]);
                    assert(nm.drop_first() =~= Seq::<NodeView>::empty());
                    assert(nm[0] == leaf(ts[i + 1]));
                }
                assert(forest_blocks_zero(nm));
                assert(seq![fields, fns] =~= Seq::<NodeView>::empty().push(fields).push(fns));
                lemma_forest_blocks_push(Seq::<NodeView>::empty(), fields);
                lemma_forest_blocks_push(Seq::<NodeView>::empty().push(fields), fns);
                lemma_forest_blocks_concat(nm, seq![fields, fns]);
                assert(forest_blocks_zero(Seq::<NodeView>::empty()));
                assert(blocks_zero(node));
            } else if t is Identifier {
                let s2 = if i + 2 < ts.len() {
                    i + 2
                } else {
                    ts.len() as int
                };
                let b = strip_eof(extract(ts, s2, 1).0);
                let fields = NodeView {
                    token: TokenView::Fields,
                    children: leaves(b, 0, b.len() as int),
                };
                lemma_leaves_blocks(b, 0, b.len() as int);
                assert(blocks_zero(fields));
                lemma_leaf_blocks(ts[i]);
                assert(node.children =~= Seq::<NodeView>::empty().push(leaf(ts[i])).push(fields));
                lemma_forest_blocks_push(Seq::<NodeView>::empty(), leaf(ts[i]));
                lemma_forest_blocks_push(Seq::<NodeView>::empty().push(leaf(ts[i])), fields);
                assert(forest_blocks_zero(Seq::<NodeView>::empty()));
                assert(blocks_zero(node));
            } else {
                lemma_line_node_blocks(ts, i);
                assert(blocks_zero(node));
            }
            lemma_forest_blocks_concat(seq![node], parse_items(ts, nx));
            assert(seq![node].drop_first() =~= Seq::<NodeView>::empty());
            assert(seq![node][0] == node);
            assert(forest_blocks_zero(Seq::<NodeView>::empty()));
            assert(parse_items(ts, i) == seq![node] + parse_items(ts, nx));
        }
    }
}

/// Brace-depth matching is exact over whole trees: for a balanced token
/// sequence in which the function keyword does not occur, every `Block`
/// node of the parsed tree has a recursively summed brace count of zero.
/// For unbalanced input the builder still terminates — `parse` is a
/// verified total function — under the leniency policy.
pub proof fn lemma_parse_blocks_zero(ts: Seq<TokenView>)
    requires
        balanced(ts),
        no_fn_tokens(ts),
    ensures
        blocks_zero(parse_spec(ts)),
{
    lemma_items_blocks_zero(ts, 0);
}

} // verus!
