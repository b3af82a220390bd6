//! Red tree — position-aware cursors over the green tree.
//!
//! The red tree wraps a [`GreenNode`] with absolute source positions, parent
//! pointers, and sibling navigation. It provides a uniform API for traversing
//! the syntax tree regardless of node type.
//!
//! # Design
//!
//! [`SyntaxTree`] stores a flat array of node records built by a pre-order
//! walk of the green tree. Each record stores its absolute byte offset, parent
//! index, and first-child/next-sibling indices. [`SyntaxNode`] is a `Copy`
//! newtype around an index into this array, making traversal cheap and
//! allocation-free.

#![allow(missing_docs)]

use vstd::prelude::*;
use vstd::string::{StringExecFns, StringSliceAdditionalSpecFns};

use crate::green::{
    child_leaves, copy_of, leaves_of, lemma_tokens_total_concat, lemma_wf_all_total, tokens_total,
    child_size, child_wf, lemma_sum_lens_nonneg, lemma_sum_lens_prefix, lemma_sum_lens_take_succ,
    lemma_size_of_prefix, lemma_wf_all_index, size_of, sum_lens, wf_all, GreenChild, GreenChildren, GreenNode, GreenToken,
};
use crate::span::{ContextId, Span, Spanned};
use crate::syntax::SyntaxKind;
use crate::token::{carries, BalancedToken, BalancedTokenSequence};
use crate::value::{chars_of, read_token, token_reads};

verus! {

/// Sentinel index for absent relationships.
pub const NONE: u32 = 0xffff_ffffu32;

/// Where a node sits in the source and what it is.
pub struct NodePlace {
    /// Absolute byte offset of the node (trivia included).
    pub offset: u32,
    /// Kind of the node.
    pub kind: SyntaxKind,
    /// Length in bytes, trivia included.
    pub len: u32,
    /// The token, for leaves.
    pub token: Option<GreenToken>,
}

/// Everything recorded about one node of a [`SyntaxTree`].
pub struct NodeInfo {
    pub place: NodePlace,
    /// Index of the parent, or [`NONE`] for the root.
    pub parent: u32,
    /// Index of the first child, or [`NONE`].
    pub first_child: u32,
    /// Index of the next sibling, or [`NONE`].
    pub next_sibling: u32,
}

/// The pre-order listing of a green subtree placed at byte offset `off`.
pub open spec fn flat(g: GreenNode, off: u32) -> Seq<NodePlace>
    decreases g,
{
    let me = NodePlace { offset: off, kind: g.kind, len: g.len, token: g.spec_token() };
    match g.children {
        GreenChildren::Node { children } => seq![me] + flat_children(children@, off),
        _ => seq![me],
    }
}

/// The pre-order listing of a run of children, the first placed at `off`.
pub open spec fn flat_children(cs: Seq<GreenChild>, off: u32) -> Seq<NodePlace>
    decreases cs,
{
    if cs.len() == 0 {
        Seq::empty()
    } else {
        flat_children(cs.drop_last(), off) + flat_child(cs.last(), (off + sum_lens(cs.drop_last())) as u32)
    }
}

/// The pre-order listing of one child placed at `off`.
pub open spec fn flat_child(c: GreenChild, off: u32) -> Seq<NodePlace>
    decreases c,
{
    match c {
        GreenChild::Token(t) => seq![
            NodePlace {
                offset: off,
                kind: t.kind,
                len: t.spec_total_len() as u32,
                token: Some(t),
            },
        ],
        GreenChild::Node(n) => flat(n, off),
    }
}

/// The source bytes covered by the leaves among `ps`, concatenated in order.
pub open spec fn lossless_bytes(ps: Seq<NodePlace>, src: Seq<u8>) -> Seq<u8>
    decreases ps.len(),
{
    if ps.len() == 0 {
        Seq::empty()
    } else {
        let p = ps.last();
        lossless_bytes(ps.drop_last(), src) + match p.token {
            Some(t) => src.subrange(p.offset as int, p.offset + t.spec_total_len()),
            None => Seq::empty(),
        }
    }
}

/// Every leaf among `ps` covers a range of `src` that starts and ends on
/// character boundaries.
pub open spec fn leaves_in_source(ps: Seq<NodePlace>, src: Seq<u8>) -> bool {
    forall|i: int|
        0 <= i < ps.len() && (#[trigger] ps[i]).token is Some ==> {
            let t = ps[i].token->0;
            &&& ps[i].offset + t.spec_total_len() <= src.len()
            &&& vstd::utf8::is_char_boundary(src, ps[i].offset as int)
            &&& vstd::utf8::is_char_boundary(src, ps[i].offset + t.spec_total_len())
            &&& vstd::utf8::is_char_boundary(src, ps[i].offset + t.leading_trivia)
            &&& vstd::utf8::is_char_boundary(src, ps[i].offset + t.leading_trivia + t.len)
        }
}

// =============================================================================
// Where the leaves of a listing lie
// =============================================================================

/// The leaves among `ps`, in order, each with the offset it is placed at.
pub open spec fn leaf_spans(ps: Seq<NodePlace>) -> Seq<(int, GreenToken)>
    decreases ps.len(),
{
    if ps.len() == 0 {
        Seq::empty()
    } else {
        leaf_spans(ps.drop_last()) + match ps.last().token {
            Some(t) => seq![(ps.last().offset as int, t)],
            None => Seq::empty(),
        }
    }
}

/// Tokens placed one after another, the first at `off`.
pub open spec fn placed(ls: Seq<GreenToken>, off: int) -> Seq<(int, GreenToken)> {
    Seq::new(ls.len(), |k: int| (off + tokens_total(ls.take(k)), ls[k]))
}

/// The source bytes covered by each span (trivia included), concatenated.
pub open spec fn span_bytes(sp: Seq<(int, GreenToken)>, src: Seq<u8>) -> Seq<u8>
    decreases sp.len(),
{
    if sp.len() == 0 {
        Seq::empty()
    } else {
        span_bytes(sp.drop_last(), src) + src.subrange(
            sp.last().0,
            sp.last().0 + sp.last().1.spec_total_len(),
        )
    }
}

/// What a listing prints depends only on where its leaves lie.
pub proof fn lemma_lossless_spans(ps: Seq<NodePlace>, src: Seq<u8>)
    ensures
        lossless_bytes(ps, src) == span_bytes(leaf_spans(ps), src),
    decreases ps.len(),
{
    if ps.len() > 0 {
        lemma_lossless_spans(ps.drop_last(), src);
        let init = leaf_spans(ps.drop_last());
        match ps.last().token {
            Some(t) => {
                let sp = init + seq![(ps.last().offset as int, t)];
                assert(sp.drop_last() =~= init);
            },
            None => {
                assert(init + Seq::<(int, GreenToken)>::empty() =~= init);
            },
        }
    }
}

/// The leaves of two listings put together.
pub proof fn lemma_leaf_spans_concat(a: Seq<NodePlace>, b: Seq<NodePlace>)
    ensures
        leaf_spans(a + b) == leaf_spans(a) + leaf_spans(b),
    decreases b.len(),
{
    if b.len() == 0 {
        assert(a + b =~= a);
        assert(leaf_spans(b) =~= Seq::<(int, GreenToken)>::empty());
        assert(leaf_spans(a) + leaf_spans(b) =~= leaf_spans(a));
    } else {
        assert((a + b).drop_last() =~= a + b.drop_last());
        assert((a + b).last() == b.last());
        lemma_leaf_spans_concat(a, b.drop_last());
        let tail = match b.last().token {
            Some(t) => seq![(b.last().offset as int, t)],
            None => Seq::<(int, GreenToken)>::empty(),
        };
        assert(leaf_spans(a) + leaf_spans(b.drop_last()) + tail =~= leaf_spans(a) + (leaf_spans(
            b.drop_last(),
        ) + tail));
    }
}

/// Totals of prefixes of a run of tokens never exceed the total of the run.
pub proof fn lemma_tokens_total_take(ls: Seq<GreenToken>, k: int)
    requires
        0 <= k <= ls.len(),
    ensures
        0 <= tokens_total(ls.take(k)) <= tokens_total(ls),
    decreases ls.len() - k,
{
    if k < ls.len() {
        lemma_tokens_total_take(ls, k + 1);
        assert(ls.take(k + 1).drop_last() =~= ls.take(k));
    } else {
        assert(ls.take(k) =~= ls);
    }
    lemma_tokens_total_nonneg_all(ls.take(k));
}

/// The total length of tokens is never negative.
pub proof fn lemma_tokens_total_nonneg_all(ls: Seq<GreenToken>)
    ensures
        tokens_total(ls) >= 0,
    decreases ls.len(),
{
    if ls.len() > 0 {
        lemma_tokens_total_nonneg_all(ls.drop_last());
    }
}

/// Placing two runs one after the other places their concatenation.
pub proof fn lemma_placed_concat(a: Seq<GreenToken>, b: Seq<GreenToken>, off: int)
    ensures
        placed(a, off) + placed(b, off + tokens_total(a)) == placed(a + b, off),
{
    let l = placed(a, off) + placed(b, off + tokens_total(a));
    let r = placed(a + b, off);
    assert forall|k: int| 0 <= k < r.len() implies l[k] == r[k] by {
        if k < a.len() {
            assert((a + b).take(k) =~= a.take(k));
        } else {
            assert((a + b).take(k) =~= a + b.take(k - a.len()));
            lemma_tokens_total_concat(a, b.take(k - a.len()));
        }
    }
    assert(l =~= r);
}

/// The leaves of a one-place listing.
proof fn lemma_leaf_spans_single(p: NodePlace)
    ensures
        leaf_spans(seq![p]) == match p.token {
            Some(t) => seq![(p.offset as int, t)],
            None => Seq::<(int, GreenToken)>::empty(),
        },
{
    reveal_with_fuel(leaf_spans, 2);
    assert(seq![p].drop_last() =~= Seq::<NodePlace>::empty());
    match p.token {
        Some(t) => {
            assert(Seq::<(int, GreenToken)>::empty() + seq![(p.offset as int, t)] =~= seq![(p.offset as int, t)]);
        },
        None => {
            assert(Seq::<(int, GreenToken)>::empty() + Seq::<(int, GreenToken)>::empty() =~= Seq::<(int, GreenToken)>::empty());
        },
    }
}

/// The leaves of the listing of a well-formed tree are its tokens, placed one
/// after another from the tree's offset.
pub proof fn lemma_flat_leaves(g: GreenNode, off: u32)
    requires
        g.wf(),
        off + g.len <= u32::MAX,
    ensures
        leaf_spans(flat(g, off)) == placed(g.leaves(), off as int),
    decreases g,
{
    let me = NodePlace { offset: off, kind: g.kind, len: g.len, token: g.spec_token() };
    match g.children {
        GreenChildren::Node { children } => {
            assert(decreases_to!(g => g.children));
            assert(decreases_to!(g.children => children));
            lemma_flat_children_leaves(children@, off);
            lemma_leaf_spans_concat(seq![me], flat_children(children@, off));
            lemma_leaf_spans_single(me);
            assert(Seq::<(int, GreenToken)>::empty() + leaf_spans(flat_children(children@, off))
                =~= leaf_spans(flat_children(children@, off)));
        },
        GreenChildren::Token(t) => {
            lemma_leaf_spans_single(me);
            assert(seq![t].take(0) =~= Seq::<GreenToken>::empty());
            assert(placed(seq![t], off as int) =~= seq![(off as int, t)]);
        },
        GreenChildren::Empty => {
            lemma_leaf_spans_single(me);
            assert(placed(g.leaves(), off as int) =~= Seq::<(int, GreenToken)>::empty());
        },
    }
}

/// The leaves of the listing of a well-formed run of children.
pub proof fn lemma_flat_children_leaves(cs: Seq<GreenChild>, off: u32)
    requires
        wf_all(cs),
        off + sum_lens(cs) <= u32::MAX,
    ensures
        leaf_spans(flat_children(cs, off)) == placed(leaves_of(cs), off as int),
    decreases cs,
{
    if cs.len() == 0 {
        assert(leaf_spans(flat_children(cs, off)) =~= Seq::<(int, GreenToken)>::empty());
        assert(placed(leaves_of(cs), off as int) =~= Seq::<(int, GreenToken)>::empty());
    } else {
        let init = cs.drop_last();
        let last = cs.last();
        lemma_sum_lens_nonneg(init);
        assert(last.spec_len() >= 0) by {
            match last {
                GreenChild::Token(t) => {},
                GreenChild::Node(n) => {},
            }
        }
        lemma_flat_children_leaves(init, off);
        let off2 = (off + sum_lens(init)) as u32;
        lemma_flat_child_leaves(last, off2);
        lemma_leaf_spans_concat(flat_children(init, off), flat_child(last, off2));
        lemma_wf_all_total(init);
        lemma_placed_concat(leaves_of(init), child_leaves(last), off as int);
    }
}

/// The leaves of the listing of a well-formed child.
pub proof fn lemma_flat_child_leaves(c: GreenChild, off: u32)
    requires
        child_wf(c),
        off + c.spec_len() <= u32::MAX,
    ensures
        leaf_spans(flat_child(c, off)) == placed(child_leaves(c), off as int),
    decreases c,
{
    match c {
        GreenChild::Token(t) => {
            let p = NodePlace { offset: off, kind: t.kind, len: t.spec_total_len() as u32, token: Some(t) };
            lemma_leaf_spans_single(p);
            assert(seq![t].take(0) =~= Seq::<GreenToken>::empty());
            assert(placed(seq![t], off as int) =~= seq![(off as int, t)]);
        },
        GreenChild::Node(n) => {
            lemma_flat_leaves(n, off);
        },
    }
}

/// Every leaf among `ps` has the kind of its token.
pub open spec fn leaf_kinds_agree(ps: Seq<NodePlace>) -> bool {
    forall|i: int| 0 <= i < ps.len() && (#[trigger] ps[i]).token is Some ==> ps[i].kind == ps[i].token->0.kind
}

/// In the listing of a well-formed tree, every leaf has its token's kind.
pub proof fn lemma_flat_leaf_kinds(g: GreenNode, off: u32)
    requires
        g.wf(),
    ensures
        leaf_kinds_agree(flat(g, off)),
    decreases g,
{
    let me = NodePlace { offset: off, kind: g.kind, len: g.len, token: g.spec_token() };
    match g.children {
        GreenChildren::Node { children } => {
            assert(decreases_to!(g => g.children));
            assert(decreases_to!(g.children => children));
            lemma_flat_children_leaf_kinds(children@, off);
            let rest = flat_children(children@, off);
            assert forall|i: int| 0 <= i < flat(g, off).len() && (#[trigger] flat(g, off)[i]).token is Some implies flat(
                g,
                off,
            )[i].kind == flat(g, off)[i].token->0.kind by {
                if i > 0 {
                    assert(flat(g, off)[i] == rest[i - 1]);
                }
            }
        },
        _ => {},
    }
}

/// The leaves of the listing of a well-formed run of children have their
/// tokens' kinds.
pub proof fn lemma_flat_children_leaf_kinds(cs: Seq<GreenChild>, off: u32)
    requires
        wf_all(cs),
    ensures
        leaf_kinds_agree(flat_children(cs, off)),
    decreases cs,
{
    if cs.len() > 0 {
        let init = cs.drop_last();
        let last = cs.last();
        let off2 = (off + sum_lens(init)) as u32;
        assert(wf_all(init) && child_wf(last));
        lemma_flat_children_leaf_kinds(init, off);
        match last {
            GreenChild::Node(n) => {
                lemma_flat_leaf_kinds(n, off2);
            },
            GreenChild::Token(_) => {},
        }
        let a = flat_children(init, off);
        let b = flat_child(last, off2);
        assert(flat_children(cs, off) == a + b);
        assert forall|i: int|
            0 <= i < (a + b).len() && (#[trigger] (a + b)[i]).token is Some implies (a + b)[i].kind == (a
            + b)[i].token->0.kind by {
            if i < a.len() {
                assert((a + b)[i] == a[i]);
            } else {
                assert((a + b)[i] == b[i - a.len()]);
            }
        }
    }
}

/// Tokens placed from 0 cover the source from its start, in order.
pub proof fn lemma_span_bytes_tile(ls: Seq<GreenToken>, src: Seq<u8>, k: int)
    requires
        tokens_total(ls) <= src.len(),
        0 <= k <= ls.len(),
    ensures
        span_bytes(placed(ls, 0).take(k), src) == src.subrange(0, tokens_total(ls.take(k))),
    decreases k,
{
    let sp = placed(ls, 0);
    if k == 0 {
        assert(sp.take(0) =~= Seq::<(int, GreenToken)>::empty());
        assert(ls.take(0) =~= Seq::<GreenToken>::empty());
        assert(src.subrange(0, 0) =~= Seq::<u8>::empty());
    } else {
        lemma_span_bytes_tile(ls, src, k - 1);
        lemma_tokens_total_take(ls, k);
        lemma_tokens_total_take(ls, k - 1);
        assert(sp.take(k).drop_last() =~= sp.take(k - 1));
        assert(ls.take(k).drop_last() =~= ls.take(k - 1));
        assert(sp.take(k).last() == sp[k - 1]);
        let a = tokens_total(ls.take(k - 1));
        let e = tokens_total(ls.take(k));
        assert(e == a + ls[k - 1].spec_total_len());
        assert(src.subrange(0, a) + src.subrange(a, e) =~= src.subrange(0, e));
    }
}

/// Each leaf of a listing appears among its leaf spans.
pub proof fn lemma_leaf_spans_member(ps: Seq<NodePlace>, i: int)
    requires
        0 <= i < ps.len(),
        ps[i].token is Some,
    ensures
        exists|k: int|
            0 <= k < leaf_spans(ps).len() && #[trigger] leaf_spans(ps)[k] == (
            ps[i].offset as int,
            ps[i].token->0,
        ),
    decreases ps.len(),
{
    let init = ps.drop_last();
    if i < ps.len() - 1 {
        lemma_leaf_spans_member(init, i);
        assert(init[i] == ps[i]);
        let k = choose|k: int|
            0 <= k < leaf_spans(init).len() && #[trigger] leaf_spans(init)[k] == (
            init[i].offset as int,
            init[i].token->0,
        );
        assert(leaf_spans(ps)[k] == leaf_spans(init)[k]);
    } else {
        let t = ps[i].token->0;
        assert(leaf_spans(ps) == leaf_spans(init) + seq![(ps[i].offset as int, t)]);
        assert(leaf_spans(ps)[leaf_spans(init).len() as int] == (ps[i].offset as int, t));
    }
}

// =============================================================================
// The records of a tree: places and links
// =============================================================================

/// The records of a green subtree placed at `off`, in pre-order: its root's
/// record at index `at`, under `parent`, followed by the sibling `next`; its
/// first child right after it; each child followed by the next.
pub open spec fn flat_info(g: GreenNode, off: u32, at: int, parent: u32, next: u32) -> Seq<NodeInfo>
    decreases g,
{
    let me = NodeInfo {
        place: NodePlace { offset: off, kind: g.kind, len: g.len, token: g.spec_token() },
        parent,
        first_child: if g.spec_children().len() > 0 {
            (at + 1) as u32
        } else {
            NONE
        },
        next_sibling: next,
    };
    match g.children {
        GreenChildren::Node { children } => seq![me] + children_info(children@, off, at + 1, at as u32, NONE),
        _ => seq![me],
    }
}

/// The indices of the subtree at `i` in pre-order: the node, then the
/// subtrees of its children, following first children and next siblings.
pub open spec fn preorder(v: Seq<NodeInfo>, i: int) -> Seq<int>
    decreases 2 * (v.len() - i) + 1,
{
    if 0 <= i < v.len() {
        let fc = v[i].first_child as int;
        seq![i] + if i < fc < v.len() {
            sibling_preorder(v, fc)
        } else {
            Seq::empty()
        }
    } else {
        Seq::empty()
    }
}

/// The indices of the subtrees of `c` and of the siblings after it, in
/// pre-order.
pub open spec fn sibling_preorder(v: Seq<NodeInfo>, c: int) -> Seq<int>
    decreases 2 * (v.len() - c) + 2,
{
    if 0 <= c < v.len() {
        let ns = v[c].next_sibling as int;
        preorder(v, c) + if c < ns < v.len() {
            sibling_preorder(v, ns)
        } else {
            Seq::empty()
        }
    } else {
        Seq::empty()
    }
}

/// The indices `a`, `a + 1`, ... up to `b` (excluded).
pub open spec fn index_range(a: int, b: int) -> Seq<int> {
    Seq::new(if a <= b { (b - a) as nat } else { 0 }, |j: int| a + j)
}

/// The green node that stands for the token `t` in a syntax tree.
pub open spec fn token_node(t: GreenToken) -> GreenNode {
    GreenNode { kind: t.kind, len: t.spec_total_len() as u32, children: GreenChildren::Token(t) }
}

/// The green nodes of the pre-order listing of `g`: each node's subtree.
pub open spec fn flat_greens(g: GreenNode) -> Seq<GreenNode>
    decreases g,
{
    match g.children {
        GreenChildren::Node { children } => seq![g] + children_greens(children@),
        _ => seq![g],
    }
}

/// The green nodes of the listing of a run of children.
pub open spec fn children_greens(cs: Seq<GreenChild>) -> Seq<GreenNode>
    decreases cs,
{
    if cs.len() == 0 {
        Seq::empty()
    } else {
        children_greens(cs.drop_last()) + child_greens(cs.last())
    }
}

/// The green nodes of the listing of one child.
pub open spec fn child_greens(c: GreenChild) -> Seq<GreenNode>
    decreases c,
{
    match c {
        GreenChild::Token(t) => seq![token_node(t)],
        GreenChild::Node(n) => flat_greens(n),
    }
}

proof fn lemma_flat_greens_len(g: GreenNode)
    ensures
        flat_greens(g).len() == g.size(),
    decreases g,
{
    match g.children {
        GreenChildren::Node { children } => {
            assert(decreases_to!(g => g.children));
            assert(decreases_to!(g.children => children));
            lemma_children_greens_len(children@);
        },
        _ => {},
    }
}

proof fn lemma_children_greens_len(cs: Seq<GreenChild>)
    ensures
        children_greens(cs).len() == size_of(cs),
    decreases cs,
{
    if cs.len() > 0 {
        lemma_children_greens_len(cs.drop_last());
        lemma_child_greens_len(cs.last());
    }
}

proof fn lemma_child_greens_len(c: GreenChild)
    ensures
        child_greens(c).len() == child_size(c),
    decreases c,
{
    match c {
        GreenChild::Token(_) => {},
        GreenChild::Node(n) => lemma_flat_greens_len(n),
    }
}

/// The records of a run of children, the first placed at `off` with index
/// `at`, all under `parent`, the last followed by the sibling `next`.
pub open spec fn children_info(cs: Seq<GreenChild>, off: u32, at: int, parent: u32, next: u32) -> Seq<NodeInfo>
    decreases cs,
{
    if cs.len() == 0 {
        Seq::empty()
    } else {
        let init = cs.drop_last();
        let last_at = at + size_of(init);
        children_info(init, off, at, parent, last_at as u32) + child_info(
            cs.last(),
            (off + sum_lens(init)) as u32,
            last_at,
            parent,
            next,
        )
    }
}

/// The records of one child placed at `off` with index `at`.
pub open spec fn child_info(c: GreenChild, off: u32, at: int, parent: u32, next: u32) -> Seq<NodeInfo>
    decreases c,
{
    match c {
        GreenChild::Token(t) => seq![
            NodeInfo {
                place: NodePlace {
                    offset: off,
                    kind: t.kind,
                    len: t.spec_total_len() as u32,
                    token: Some(t),
                },
                parent,
                first_child: NONE,
                next_sibling: next,
            },
        ],
        GreenChild::Node(n) => flat_info(n, off, at, parent, next),
    }
}

/// The places of the records.
pub open spec fn places_of_infos(v: Seq<NodeInfo>) -> Seq<NodePlace> {
    v.map_values(|n: NodeInfo| n.place)
}

/// A subtree has as many records as its size; their places are its listing;
/// the sibling after it shows only in its root's record.
pub proof fn lemma_flat_info(g: GreenNode, off: u32, at: int, parent: u32, next: u32)
    ensures
        flat_info(g, off, at, parent, next).len() == g.size(),
        places_of_infos(flat_info(g, off, at, parent, next)) == flat(g, off),
        flat_info(g, off, at, parent, next) == flat_info(g, off, at, parent, NONE).update(
            0,
            NodeInfo { next_sibling: next, ..flat_info(g, off, at, parent, NONE)[0] },
        ),
    decreases g,
{
    let me = NodePlace { offset: off, kind: g.kind, len: g.len, token: g.spec_token() };
    match g.children {
        GreenChildren::Node { children } => {
            assert(decreases_to!(g => g.children));
            assert(decreases_to!(g.children => children));
            lemma_children_info(children@, off, at + 1, at as u32, NONE);
            assert(places_of_infos(flat_info(g, off, at, parent, next)) =~= seq![me] + places_of_infos(
                children_info(children@, off, at + 1, at as u32, NONE),
            ));
        },
        _ => {
            assert(places_of_infos(flat_info(g, off, at, parent, next)) =~= seq![me]);
        },
    }
    assert(flat_info(g, off, at, parent, next) =~= flat_info(g, off, at, parent, NONE).update(
        0,
        NodeInfo { next_sibling: next, ..flat_info(g, off, at, parent, NONE)[0] },
    ));
}

/// A run of children has as many records as its size, and their places are
/// its listing; the sibling after it shows only in its last child's record.
pub proof fn lemma_children_info(cs: Seq<GreenChild>, off: u32, at: int, parent: u32, next: u32)
    ensures
        children_info(cs, off, at, parent, next).len() == size_of(cs),
        places_of_infos(children_info(cs, off, at, parent, next)) == flat_children(cs, off),
        cs.len() > 0 ==> children_info(cs, off, at, parent, next) == children_info(cs, off, at, parent, NONE).update(
            size_of(cs.drop_last()) as int,
            NodeInfo {
                next_sibling: next,
                ..children_info(cs, off, at, parent, NONE)[size_of(cs.drop_last()) as int]
            },
        ),
    decreases cs,
{
    if cs.len() == 0 {
        assert(places_of_infos(children_info(cs, off, at, parent, next)) =~= Seq::<NodePlace>::empty());
    } else {
        let init = cs.drop_last();
        let last_at = at + size_of(init);
        let off2 = (off + sum_lens(init)) as u32;
        lemma_children_info(init, off, at, parent, last_at as u32);
        lemma_child_info(cs.last(), off2, last_at, parent, next);
        lemma_child_info(cs.last(), off2, last_at, parent, NONE);
        let a = children_info(init, off, at, parent, last_at as u32);
        let b = child_info(cs.last(), off2, last_at, parent, next);
        let b0 = child_info(cs.last(), off2, last_at, parent, NONE);
        assert(places_of_infos(a + b) =~= places_of_infos(a) + places_of_infos(b));
        assert(a + b =~= (a + b0).update(a.len() as int, NodeInfo { next_sibling: next, ..(a + b0)[a.len() as int] }));
    }
}

/// A child has as many records as its size, and their places are its
/// listing; the sibling after it shows only in its root's record.
pub proof fn lemma_child_info(c: GreenChild, off: u32, at: int, parent: u32, next: u32)
    ensures
        child_info(c, off, at, parent, next).len() == child_size(c),
        places_of_infos(child_info(c, off, at, parent, next)) == flat_child(c, off),
        child_info(c, off, at, parent, next) == child_info(c, off, at, parent, NONE).update(
            0,
            NodeInfo { next_sibling: next, ..child_info(c, off, at, parent, NONE)[0] },
        ),
    decreases c,
{
    match c {
        GreenChild::Token(t) => {
            assert(places_of_infos(child_info(c, off, at, parent, next)) =~= flat_child(c, off));
            assert(child_info(c, off, at, parent, next) =~= child_info(c, off, at, parent, NONE).update(
                0,
                NodeInfo { next_sibling: next, ..child_info(c, off, at, parent, NONE)[0] },
            ));
        },
        GreenChild::Node(n) => {
            lemma_flat_info(n, off, at, parent, next);
        },
    }
}

/// A position-aware syntax tree built from a green tree.
///
/// Stores pre-computed offsets and parent/sibling indices for efficient
/// traversal.
#[derive(Debug)]
pub struct SyntaxTree {
    /// Position and links of each node, in pre-order.
    nodes: Vec<SyntaxNodeData>,
    /// The green node behind each entry of `nodes`.
    greens: Vec<GreenNode>,
}

#[derive(Debug, Clone, Copy)]
struct SyntaxNodeData {
    /// Absolute byte offset from the start of the source.
    offset: u32,
    /// Index of the parent node, or [`NONE`] for the root.
    parent: u32,
    /// Index of the first child, or [`NONE`] if leaf.
    first_child: u32,
    /// Index of the next sibling, or [`NONE`] if last.
    next_sibling: u32,
}

spec fn place_of(d: SyntaxNodeData, g: GreenNode) -> NodePlace {
    NodePlace { offset: d.offset, kind: g.kind, len: g.len, token: g.spec_token() }
}

spec fn places_of(ns: Seq<SyntaxNodeData>, gs: Seq<GreenNode>) -> Seq<NodePlace> {
    Seq::new(ns.len(), |i: int| place_of(ns[i], gs[i]))
}

spec fn infos_of(ns: Seq<SyntaxNodeData>, gs: Seq<GreenNode>) -> Seq<NodeInfo> {
    Seq::new(
        ns.len(),
        |i: int|
            NodeInfo {
                place: place_of(ns[i], gs[i]),
                parent: ns[i].parent,
                first_child: ns[i].first_child,
                next_sibling: ns[i].next_sibling,
            },
    )
}

/// The links of node `i` point inside the array: its parent before it, its
/// first child and next sibling after it; its first child has it as parent
/// and its next sibling shares its parent; a leaf has no children; the node
/// ends within `u32` range.
spec fn link_ok(ns: Seq<SyntaxNodeData>, gs: Seq<GreenNode>, i: int) -> bool {
    let d = ns[i];
    &&& (d.parent == NONE || d.parent < i)
    &&& (d.first_child == NONE || (i < d.first_child < ns.len() && ns[d.first_child as int].parent
        == i))
    &&& (d.next_sibling == NONE || (i < d.next_sibling < ns.len() && ns[d.next_sibling as int].parent
        == d.parent))
    &&& (gs[i].spec_token() is Some ==> d.first_child == NONE)
    &&& (gs[i].spec_token() matches Some(t) ==> gs[i].len == t.spec_total_len())
    &&& d.offset + gs[i].len <= u32::MAX
}

/// Every node's links are as [`link_ok`] describes.
spec fn links_ok(ns: Seq<SyntaxNodeData>, gs: Seq<GreenNode>) -> bool {
    &&& ns.len() == gs.len()
    &&& forall|i: int| #![trigger ns[i]] 0 <= i < ns.len() ==> link_ok(ns, gs, i)
}

/// A reference to a node in a [`SyntaxTree`].
///
/// `SyntaxNode` is a cheap `Copy` type. All operations are performed on the
/// associated [`SyntaxTree`], which owns the data.
#[derive(Debug, Clone, Copy, PartialEq, Eq, Hash, Structural)]
pub struct SyntaxNode {
    idx: u32,
}

impl SyntaxNode {
    /// The index of this node in the pre-order listing of its tree.
    pub closed spec fn index(self) -> int {
        self.idx as int
    }
}

impl View for SyntaxTree {
    type V = Seq<NodeInfo>;

    closed spec fn view(&self) -> Seq<NodeInfo> {
        infos_of(self.nodes@, self.greens@)
    }
}

impl SyntaxTree {
    #[verifier::type_invariant]
    spec fn inv(self) -> bool {
        &&& 1 <= self.nodes@.len() < NONE
        &&& links_ok(self.nodes@, self.greens@)
    }

    /// The places of all nodes, in pre-order.
    pub open spec fn places(self) -> Seq<NodePlace> {
        self@.map_values(|n: NodeInfo| n.place)
    }

    /// The green node behind the `i`-th node of the pre-order listing.
    pub closed spec fn green_at(self, i: int) -> GreenNode {
        self.greens@[i]
    }

    /// `node` belongs to this tree.
    pub open spec fn contains(self, node: SyntaxNode) -> bool {
        0 <= node.index() < self@.len()
    }

    proof fn lemma_view(self)
        requires
            self.nodes@.len() == self.greens@.len(),
        ensures
            self@.len() == self.nodes@.len(),
            self@ == infos_of(self.nodes@, self.greens@),
            self.places() =~= places_of(self.nodes@, self.greens@),
    {
    }

    /// Build a [`SyntaxTree`] from a root green node.
    ///
    /// Walks the green tree in pre-order, computing absolute byte offsets
    /// and establishing parent/sibling relationships.
    pub fn new(root: GreenNode) -> (r: Self)
        requires
            root.wf(),
            root.size() < NONE,
        ensures
            r@ == flat_info(root, 0, 0, NONE, NONE),
            r.places() == flat(root, 0),
            r@[0].parent == NONE,
            copy_of(root, r.green_at(0)),
            flat_greens(root).len() == r@.len(),
            r@.len() == root.size(),
            forall|i: int| 0 <= i < r@.len() ==> copy_of(#[trigger] flat_greens(root)[i], r.green_at(i)),
            forall|i: int| 0 <= i < r@.len() ==> #[trigger] children_placed(r@, flat_greens(root), 0, i),
            preorder(r@, 0) == index_range(0, r@.len() as int),
    {
        let mut nodes: Vec<SyntaxNodeData> = Vec::new();
        let mut greens: Vec<GreenNode> = Vec::new();
        proof {
            lemma_size_pos(root);
            assert(infos_of(nodes@, greens@) =~= Seq::<NodeInfo>::empty());
        }
        build_recursive(&root, NONE, NONE, 0, &mut nodes, &mut greens);
        proof {
            assert(infos_of(nodes@, greens@) =~= flat_info(root, 0, 0, NONE, NONE));
            lemma_flat_info(root, 0, 0, NONE, NONE);
            lemma_flat_greens_len(root);
            assert forall|i: int| 0 <= i < root.size() implies copy_of(#[trigger] flat_greens(root)[i], greens@[i]) by {
                assert(greens@[0 + i] == greens@[i]);
            }
            assert forall|i: int| 0 <= i < root.size() implies #[trigger] children_placed(
                flat_info(root, 0, 0, NONE, NONE),
                flat_greens(root),
                0,
                i,
            ) by {
                lemma_node_placed(root, 0, 0, NONE, NONE, i);
            }
            lemma_preorder_subtree(flat_info(root, 0, 0, NONE, NONE), flat_greens(root), 0);
        }
        let r = SyntaxTree { nodes, greens };
        proof {
            r.lemma_view();
            assert(r.places() =~= places_of_infos(r@));
        }
        r
    }

    /// Returns the root node.
    pub fn root(&self) -> (r: SyntaxNode)
        ensures
            r.index() == 0,
            self.contains(r),
    {
        proof {
            use_type_invariant(self);
            self.lemma_view();
        }
        SyntaxNode { idx: 0 }
    }

    fn data(&self, node: SyntaxNode) -> (r: &SyntaxNodeData)
        requires
            self.contains(node),
        ensures
            *r == self.nodes@[node.index()],
            r.offset == self@[node.index()].place.offset,
            r.parent == self@[node.index()].parent,
            r.first_child == self@[node.index()].first_child,
            r.next_sibling == self@[node.index()].next_sibling,
    {
        proof {
            use_type_invariant(self);
            self.lemma_view();
        }
        &self.nodes[node.idx as usize]
    }

    fn green_of(&self, node: SyntaxNode) -> (r: &GreenNode)
        requires
            self.contains(node),
        ensures
            *r == self.greens@[node.index()],
            r.kind == self@[node.index()].place.kind,
            r.len == self@[node.index()].place.len,
            r.spec_token() == self@[node.index()].place.token,
            r.spec_token() matches Some(t) ==> r.len == t.spec_total_len(),
    {
        proof {
            use_type_invariant(self);
            self.lemma_view();
        }
        &self.greens[node.idx as usize]
    }

    /// Returns the [`SyntaxKind`] of a node.
    pub fn kind(&self, node: SyntaxNode) -> (r: SyntaxKind)
        requires
            self.contains(node),
        ensures
            r == self@[node.index()].place.kind,
    {
        self.green_of(node).kind
    }

    /// Returns the absolute byte offset of a node.
    pub fn offset(&self, node: SyntaxNode) -> (r: u32)
        requires
            self.contains(node),
        ensures
            r == self@[node.index()].place.offset,
    {
        self.data(node).offset
    }

    /// Returns the text length of a node in bytes.
    pub fn len(&self, node: SyntaxNode) -> (r: u32)
        requires
            self.contains(node),
        ensures
            r == self@[node.index()].place.len,
    {
        self.green_of(node).len
    }

    /// Returns `true` if the node is a leaf token.
    pub fn is_token(&self, node: SyntaxNode) -> (r: bool)
        requires
            self.contains(node),
        ensures
            r == (self@[node.index()].place.token is Some),
    {
        self.green_of(node).is_token()
    }

    /// Returns the token data if the node is a token.
    pub fn as_token(&self, node: SyntaxNode) -> (r: Option<&GreenToken>)
        requires
            self.contains(node),
        ensures
            r is Some <==> self@[node.index()].place.token is Some,
            r matches Some(t) ==> Some(*t) == self@[node.index()].place.token,
    {
        self.green_of(node).as_token()
    }

    /// Returns the parent of a node, or `None` if it is the root.
    pub fn parent(&self, node: SyntaxNode) -> (r: Option<SyntaxNode>)
        requires
            self.contains(node),
        ensures
            r is None <==> self@[node.index()].parent == NONE,
            r matches Some(p) ==> p.index() == self@[node.index()].parent && self.contains(p)
                && p.index() < node.index(),
    {
        proof {
            use_type_invariant(self);
            self.lemma_view();
        }
        let p = self.data(node).parent;
        if p == NONE {
            None
        } else {
            Some(SyntaxNode { idx: p })
        }
    }

    /// Returns the first child of a node, or `None` if it has no children.
    pub fn first_child(&self, node: SyntaxNode) -> (r: Option<SyntaxNode>)
        requires
            self.contains(node),
        ensures
            r is None <==> self@[node.index()].first_child == NONE,
            r matches Some(c) ==> c.index() == self@[node.index()].first_child && self.contains(c)
                && c.index() > node.index() && self@[c.index()].parent == node.index(),
            self@[node.index()].place.token is Some ==> r is None,
    {
        proof {
            use_type_invariant(self);
            self.lemma_view();
        }
        let c = self.data(node).first_child;
        if c == NONE {
            None
        } else {
            Some(SyntaxNode { idx: c })
        }
    }

    /// Returns the next sibling of a node, or `None` if it is the last child.
    pub fn next_sibling(&self, node: SyntaxNode) -> (r: Option<SyntaxNode>)
        requires
            self.contains(node),
        ensures
            r is None <==> self@[node.index()].next_sibling == NONE,
            r matches Some(s) ==> s.index() == self@[node.index()].next_sibling && self.contains(s)
                && s.index() > node.index() && self@[s.index()].parent == self@[node.index()].parent,
    {
        proof {
            use_type_invariant(self);
            self.lemma_view();
        }
        let s = self.data(node).next_sibling;
        if s == NONE {
            None
        } else {
            Some(SyntaxNode { idx: s })
        }
    }

    /// Returns the green node behind this syntax node.
    pub fn green(&self, node: SyntaxNode) -> (r: &GreenNode)
        requires
            self.contains(node),
        ensures
            *r == self.green_at(node.index()),
            r.kind == self@[node.index()].place.kind,
            r.len == self@[node.index()].place.len,
            r.spec_token() == self@[node.index()].place.token,
    {
        self.green_of(node)
    }

    /// Returns the number of nodes in the tree.
    pub fn node_count(&self) -> (r: usize)
        ensures
            r == self@.len(),
            r >= 1,
    {
        proof {
            use_type_invariant(self);
            self.lemma_view();
        }
        self.nodes.len()
    }

    /// The nodes of the subtree at `node` in pre-order: the node itself,
    /// then the subtree of each child in turn (the order a visitor walks
    /// them in).
    pub fn subtree_nodes(&self, node: SyntaxNode) -> (r: Vec<SyntaxNode>)
        requires
            self.contains(node),
        ensures
            r@.map_values(|n: SyntaxNode| n.index()) == preorder(self@, node.index()),
    {
        let mut out: Vec<SyntaxNode> = Vec::new();
        self.walk(node, &mut out);
        proof {
            assert(Seq::<SyntaxNode>::empty().map_values(|n: SyntaxNode| n.index()) + preorder(self@, node.index())
                =~= preorder(self@, node.index()));
        }
        out
    }

    /// Append the subtree at `node` in pre-order.
    fn walk(&self, node: SyntaxNode, out: &mut Vec<SyntaxNode>)
        requires
            self.contains(node),
        ensures
            final(out)@.map_values(|n: SyntaxNode| n.index()) == old(out)@.map_values(|n: SyntaxNode| n.index())
                + preorder(self@, node.index()),
        decreases self@.len() - node.index(),
    {
        proof {
            use_type_invariant(self);
            self.lemma_view();
        }
        let ghost v = self@;
        let ghost i = node.index();
        let ghost base = old(out)@.map_values(|n: SyntaxNode| n.index());
        out.push(node);
        proof {
            assert(out@.map_values(|n: SyntaxNode| n.index()) =~= base + seq![i]);
        }
        let mut cur = self.first_child(node);
        let ghost fc = v[i].first_child as int;
        let ghost mut done: Seq<int> = Seq::empty();
        proof {
            if cur is Some {
                assert(i < fc < v.len());
            }
        }
        while cur.is_some()
            invariant
                v == self@,
                0 <= i < v.len() < NONE,
                self.contains(node),
                i == node.index(),
                fc == v[i].first_child as int,
                cur matches Some(c) ==> self.contains(c) && c.index() > i,
                (if i < fc < v.len() {
                    sibling_preorder(v, fc)
                } else {
                    Seq::empty()
                }) == done + match cur {
                    Some(c) => sibling_preorder(v, c.index()),
                    None => Seq::<int>::empty(),
                },
                out@.map_values(|n: SyntaxNode| n.index()) == base + seq![i] + done,
            decreases v.len() - match cur {
                Some(c) => c.index(),
                None => v.len() as int,
            },
        {
            let c = cur.unwrap();
            let ghost ci = c.index();
            let ghost before = out@.map_values(|n: SyntaxNode| n.index());
            self.walk(c, out);
            let nx = self.next_sibling(c);
            proof {
                let ns = v[ci].next_sibling as int;
                let tail = if ci < ns < v.len() {
                    sibling_preorder(v, ns)
                } else {
                    Seq::<int>::empty()
                };
                assert(sibling_preorder(v, ci) == preorder(v, ci) + tail);
                match nx {
                    Some(s2) => {
                        assert(ci < ns < v.len());
                        assert(tail == sibling_preorder(v, s2.index()));
                    },
                    None => {
                        assert(ns == NONE);
                        assert(tail == Seq::<int>::empty());
                    },
                }
                assert(tail == match nx {
                    Some(s2) => sibling_preorder(v, s2.index()),
                    None => Seq::<int>::empty(),
                });
                assert(done + sibling_preorder(v, ci) =~= (done + preorder(v, ci)) + tail);
                done = done + preorder(v, ci);
                assert(out@.map_values(|n: SyntaxNode| n.index()) =~= base + seq![i] + done);
            }
            cur = nx;
        }
        proof {
            assert(done + Seq::<int>::empty() =~= done);
            assert(preorder(v, i) == seq![i] + (if i < fc < v.len() {
                sibling_preorder(v, fc)
            } else {
                Seq::empty()
            }));
            assert(base + seq![i] + done =~= base + (seq![i] + done));
        }
    }

    /// Returns a cursor over the children of a node.
    pub fn children(&self, node: SyntaxNode) -> (r: SyntaxChildren<'_>)
        requires
            self.contains(node),
        ensures
            r.tree == self,
            r.current == self@[node.index()].first_child,
    {
        SyntaxChildren { tree: self, current: self.data(node).first_child }
    }

    /// Returns the text of a token node using the source string.
    ///
    /// Returns `None` if the node is not a token.
    pub fn text<'a>(&self, node: SyntaxNode, source: &'a str) -> (r: Option<&'a str>)
        requires
            self.contains(node),
            text_in_source(self@[node.index()].place, source.spec_bytes()),
        ensures
            r is Some <==> self@[node.index()].place.token is Some,
            r matches Some(s) ==> s.spec_bytes() == text_bytes(self@[node.index()].place, source.spec_bytes()),
    {
        let d = self.data(node);
        let _source_len = source.as_bytes().len();
        match self.green_of(node).as_token() {
            None => None,
            Some(token) => {
                let start = d.offset as usize + token.leading_trivia as usize;
                let end = start + token.len as usize;
                Some(str_slice(source, start, end))
            },
        }
    }

    /// Reconstruct the original source text from the tree.
    ///
    /// This is a convenience wrapper around [`print_lossless`].
    pub fn lossless_text(&self, source: &str) -> (r: String)
        requires
            leaves_in_source(self.places(), source.spec_bytes()),
        ensures
            vstd::utf8::encode_utf8(r@) == lossless_bytes(self.places(), source.spec_bytes()),
    {
        print_lossless(self, source)
    }

    /// Reconstruct a flat [`BalancedTokenSequence`] from the subtree rooted at
    /// `node`. Walks the tree pre-order, mapping each token's [`SyntaxKind`]
    /// and source text back to a [`BalancedToken`] (see [`read_token`]), spanned
    /// by the byte range of its text.
    ///
    /// Interior nodes are traversed transparently — only token leaves appear
    /// in the output, and leaves of kinds that are not tokens are skipped. The
    /// end-of-input span sits where the subtree ends.
    pub fn to_token_sequence(&self, node: SyntaxNode, source: &str) -> (r: BalancedTokenSequence)
        requires
            self.contains(node),
            texts_in_source(self@, subtree_leaves(self@, node.index()), source.spec_bytes()),
        ensures
            read_back_all(
                r.tokens@,
                self@,
                carried_leaves(self@, subtree_leaves(self@, node.index())),
                source.spec_bytes(),
            ),
            r.eoi.spec_start() == self@[node.index()].place.offset + self@[node.index()].place.len,
            r.eoi.spec_end() == r.eoi.spec_start(),
            r.eoi.spec_context().value() == 0,
    {
        proof {
            use_type_invariant(self);
            self.lemma_view();
            assert(link_ok(self.nodes@, self.greens@, node.index()));
        }
        let mut tokens: Vec<Spanned<BalancedToken>> = Vec::new();
        collect_tokens(self, node, source, &mut tokens);
        proof {
            assert(tokens@.skip(0) =~= tokens@);
        }
        let eoi_pos = self.offset(node) as usize + self.len(node) as usize;
        let eoi = Span::new_eoi(eoi_pos, ContextId::from_index(0));
        BalancedTokenSequence { tokens, eoi }
    }
}

impl Clone for SyntaxTree {
    fn clone(&self) -> (r: Self)
        ensures
            r@ == self@,
    {
        proof {
            use_type_invariant(self);
            self.lemma_view();
        }
        let mut nodes: Vec<SyntaxNodeData> = Vec::new();
        let mut greens: Vec<GreenNode> = Vec::new();
        let n = self.nodes.len();
        let mut i: usize = 0;
        while i < n
            invariant
                n == self.nodes@.len(),
                n == self.greens@.len(),
                0 <= i <= n,
                nodes@ =~= self.nodes@.take(i as int),
                greens@.len() == i,
                forall|j: int|
                    0 <= j < i ==> {
                        &&& (#[trigger] greens@[j]).kind == self.greens@[j].kind
                        &&& greens@[j].len == self.greens@[j].len
                        &&& greens@[j].spec_token() == self.greens@[j].spec_token()
                    },
            decreases n - i,
        {
            nodes.push(self.nodes[i]);
            greens.push(self.greens[i].deep_clone());
            i = i + 1;
        }
        proof {
            assert(nodes@ =~= self.nodes@.take(n as int));
            assert(self.nodes@.take(n as int) =~= self.nodes@);
            assert(infos_of(nodes@, greens@) =~= infos_of(self.nodes@, self.greens@));
            assert(links_ok(nodes@, greens@)) by {
                assert forall|k: int| 0 <= k < nodes@.len() implies link_ok(nodes@, greens@, k) by {
                    assert(nodes@[k] == self.nodes@[k]);
                    assert(link_ok(self.nodes@, self.greens@, k));
                    assert(greens@[k].spec_token() == self.greens@[k].spec_token());
                    let d = nodes@[k];
                    if d.first_child != NONE {
                        assert(nodes@[d.first_child as int] == self.nodes@[d.first_child as int]);
                    }
                    if d.next_sibling != NONE {
                        assert(nodes@[d.next_sibling as int] == self.nodes@[d.next_sibling as int]);
                    }
                }
            }
        }
        SyntaxTree { nodes, greens }
    }
}

/// A character boundary of a valid UTF-8 sequence at or after `start` (a
/// boundary too) is a boundary of the part from `start` on.
proof fn lemma_boundary_in_suffix(b: Seq<u8>, start: int, p: int)
    requires
        vstd::utf8::valid_utf8(b),
        0 <= start <= p <= b.len(),
        vstd::utf8::is_char_boundary(b, start),
        vstd::utf8::is_char_boundary(b, p),
    ensures
        vstd::utf8::valid_utf8(b.subrange(start, b.len() as int)),
        vstd::utf8::is_char_boundary(b.subrange(start, b.len() as int), p - start),
{
    let rest = b.subrange(start, b.len() as int);
    vstd::utf8::valid_utf8_split(b, start);
    if p == b.len() {
        vstd::utf8::is_char_boundary_start_end_of_seq(rest);
    } else {
        vstd::utf8::is_char_boundary_iff_not_is_continuation_byte(b, p);
        vstd::utf8::is_char_boundary_iff_not_is_continuation_byte(rest, p - start);
        assert(rest[p - start] == b[p]);
    }
}

/// `source[start..end]`, for positions on character boundaries.
pub(crate) fn str_slice<'a>(source: &'a str, start: usize, end: usize) -> (r: &'a str)
    requires
        start <= end <= source.spec_bytes().len(),
        vstd::utf8::is_char_boundary(source.spec_bytes(), start as int),
        vstd::utf8::is_char_boundary(source.spec_bytes(), end as int),
    ensures
        r.spec_bytes() == source.spec_bytes().subrange(start as int, end as int),
{
    let ghost b = source.spec_bytes();
    proof {
        vstd::utf8::encode_utf8_valid_utf8(source@);
        lemma_boundary_in_suffix(b, start as int, end as int);
    }
    let (_, rest) = source.split_at(start);
    let (piece, _) = rest.split_at(end - start);
    proof {
        assert(piece.spec_bytes() =~= b.subrange(start as int, end as int));
    }
    piece
}

/// UTF-8 encoding distributes over concatenation.
pub proof fn lemma_encode_utf8_concat(a: Seq<char>, b: Seq<char>)
    ensures
        vstd::utf8::encode_utf8(a + b) == vstd::utf8::encode_utf8(a) + vstd::utf8::encode_utf8(b),
    decreases a.len(),
{
    if a.len() == 0 {
        assert(a + b =~= b);
        assert(vstd::utf8::encode_utf8(a) =~= Seq::<u8>::empty());
        assert(Seq::<u8>::empty() + vstd::utf8::encode_utf8(b) =~= vstd::utf8::encode_utf8(b));
    } else {
        assert((a + b).drop_first() =~= a.drop_first() + b);
        assert((a + b)[0] == a[0]);
        lemma_encode_utf8_concat(a.drop_first(), b);
        assert(vstd::utf8::encode_scalar(a[0] as u32) + (vstd::utf8::encode_utf8(a.drop_first())
            + vstd::utf8::encode_utf8(b)) =~= (vstd::utf8::encode_scalar(a[0] as u32)
            + vstd::utf8::encode_utf8(a.drop_first())) + vstd::utf8::encode_utf8(b));
    }
}

/// Print a syntax tree as lossless source text.
///
/// Concatenates, for every token in pre-order, its leading trivia, its text
/// and its trailing trivia, as found in the source string.
pub fn print_lossless(tree: &SyntaxTree, source: &str) -> (r: String)
    requires
        leaves_in_source(tree.places(), source.spec_bytes()),
    ensures
        vstd::utf8::encode_utf8(r@) == lossless_bytes(tree.places(), source.spec_bytes()),
{
    proof {
        use_type_invariant(tree);
        tree.lemma_view();
    }
    let ghost src = source.spec_bytes();
    let ghost ps = tree.places();
    let mut output = String::new();
    let source_len = source.as_bytes().len();
    let n = tree.nodes.len();
    let mut i: usize = 0;
    while i < n
        invariant
            n == tree.nodes@.len(),
            ps == tree.places(),
            ps.len() == n,
            ps =~= places_of(tree.nodes@, tree.greens@),
            tree.greens@.len() == n,
            src == source.spec_bytes(),
            source_len == src.len(),
            leaves_in_source(ps, src),
            0 <= i <= n,
            vstd::utf8::encode_utf8(output@) == lossless_bytes(ps.take(i as int), src),
        decreases n - i,
    {
        proof {
            assert(ps.take(i + 1).drop_last() =~= ps.take(i as int));
            assert(ps.take(i + 1).last() == ps[i as int]);
        }
        let d = &tree.nodes[i];
        match tree.greens[i].as_token() {
            Some(token) => {
                proof {
                    assert(ps[i as int].token == Some(*token));
                    assert(ps[i as int].offset == d.offset);
                }
                let start = d.offset as usize;
                let end = start + token.leading_trivia as usize + token.len as usize
                    + token.trailing_trivia as usize;
                let piece = str_slice(source, start, end);
                let ghost before = output@;
                output.append(piece);
                proof {
                    lemma_encode_utf8_concat(before, piece@);
                }
            },
            None => {
                proof {
                    assert(ps[i as int].token is None);
                    assert(lossless_bytes(ps.take(i + 1), src) =~= lossless_bytes(ps.take(i as int), src));
                }
            },
        }
        i = i + 1;
    }
    proof {
        assert(ps.take(n as int) =~= ps);
    }
    output
}

// =============================================================================
// Subtrees and the tokens read back from them
// =============================================================================

/// The bytes of a token's text (trivia excluded) in `src`.
pub open spec fn text_bytes(p: NodePlace, src: Seq<u8>) -> Seq<u8> {
    let t = p.token->0;
    let start = p.offset + t.leading_trivia;
    src.subrange(start, start + t.len)
}

/// A token node's text lies in `src` and starts and ends on character
/// boundaries (nothing is asked of interior nodes).
pub open spec fn text_in_source(p: NodePlace, src: Seq<u8>) -> bool {
    p.token matches Some(t) ==> {
        let start = p.offset + t.leading_trivia;
        &&& start + t.len <= src.len()
        &&& vstd::utf8::is_char_boundary(src, start)
        &&& vstd::utf8::is_char_boundary(src, start + t.len)
    }
}

/// Every node of `v` listed in `ls` has its text in `src`.
pub open spec fn texts_in_source(v: Seq<NodeInfo>, ls: Seq<int>, src: Seq<u8>) -> bool {
    forall|k: int| 0 <= k < ls.len() ==> text_in_source(v[#[trigger] ls[k]].place, src)
}

/// The token nodes of the subtree rooted at `i`, in pre-order, following the
/// first-child and next-sibling links of `v`.
pub open spec fn subtree_leaves(v: Seq<NodeInfo>, i: int) -> Seq<int>
    decreases v.len() - i, 0int,
{
    if 0 <= i < v.len() {
        if v[i].place.token is Some {
            seq![i]
        } else if i < v[i].first_child < v.len() {
            sibling_leaves(v, v[i].first_child as int)
        } else {
            Seq::empty()
        }
    } else {
        Seq::empty()
    }
}

/// The token nodes of the subtrees rooted at `c` and at each sibling after
/// it, in order.
pub open spec fn sibling_leaves(v: Seq<NodeInfo>, c: int) -> Seq<int>
    decreases v.len() - c, 1int,
{
    if 0 <= c < v.len() {
        subtree_leaves(v, c) + if c < v[c].next_sibling < v.len() {
            sibling_leaves(v, v[c].next_sibling as int)
        } else {
            Seq::empty()
        }
    } else {
        Seq::empty()
    }
}

/// The nodes among `ls` whose kind reads back into a token (see [`carries`]).
pub open spec fn carried_leaves(v: Seq<NodeInfo>, ls: Seq<int>) -> Seq<int>
    decreases ls.len(),
{
    if ls.len() == 0 {
        Seq::empty()
    } else {
        carried_leaves(v, ls.drop_last()) + if carries(v[ls.last()].place.kind) {
            seq![ls.last()]
        } else {
            Seq::empty()
        }
    }
}

/// `st` is what the token node `p` reads back as: the token that its kind
/// and text stand for (see [`token_reads`]), spanned by the byte range of its text in
/// context 0.
pub open spec fn reads_back(st: Spanned<BalancedToken>, p: NodePlace, src: Seq<u8>) -> bool {
    let t = p.token->0;
    let start = p.offset + t.leading_trivia;
    &&& token_reads(st.value, p.kind, vstd::utf8::decode_utf8(text_bytes(p, src)))
    &&& st.span.spec_start() == start
    &&& st.span.spec_end() == start + t.len
    &&& st.span.spec_context().value() == 0
}

/// `ts` reads back the nodes `idx` of `v`, one for one and in order.
pub open spec fn read_back_all(
    ts: Seq<Spanned<BalancedToken>>,
    v: Seq<NodeInfo>,
    idx: Seq<int>,
    src: Seq<u8>,
) -> bool {
    &&& ts.len() == idx.len()
    &&& forall|k: int| 0 <= k < ts.len() ==> reads_back(#[trigger] ts[k], v[idx[k]].place, src)
}

/// Every entry of `ls` is a token node of `v`.
pub open spec fn token_nodes(v: Seq<NodeInfo>, ls: Seq<int>) -> bool {
    forall|k: int| 0 <= k < ls.len() ==> 0 <= #[trigger] ls[k] < v.len() && v[ls[k]].place.token is Some
}

/// The leaves of a subtree are token nodes of the tree.
pub proof fn lemma_subtree_leaves_tokens(v: Seq<NodeInfo>, i: int)
    ensures
        token_nodes(v, subtree_leaves(v, i)),
    decreases v.len() - i, 0int,
{
    if 0 <= i < v.len() {
        if v[i].place.token is Some {
            assert(seq![i][0] == i);
        } else if i < v[i].first_child < v.len() {
            lemma_sibling_leaves_tokens(v, v[i].first_child as int);
        }
    }
}

/// The leaves of a run of sibling subtrees are token nodes of the tree.
pub proof fn lemma_sibling_leaves_tokens(v: Seq<NodeInfo>, c: int)
    ensures
        token_nodes(v, sibling_leaves(v, c)),
    decreases v.len() - c, 1int,
{
    if 0 <= c < v.len() {
        lemma_subtree_leaves_tokens(v, c);
        let a = subtree_leaves(v, c);
        let b = if c < v[c].next_sibling < v.len() {
            lemma_sibling_leaves_tokens(v, v[c].next_sibling as int);
            sibling_leaves(v, v[c].next_sibling as int)
        } else {
            Seq::empty()
        };
        assert forall|k: int| 0 <= k < (a + b).len() implies 0 <= #[trigger] (a + b)[k] < v.len()
            && v[(a + b)[k]].place.token is Some by {
            if k < a.len() {
                assert((a + b)[k] == a[k]);
            } else {
                assert((a + b)[k] == b[k - a.len()]);
            }
        }
    }
}

/// When all leaves of a tree lie in `src`, so do the texts of the leaves of
/// any of its subtrees: [`SyntaxTree::to_token_sequence`] can read them.
pub proof fn lemma_texts_in_source(tree: SyntaxTree, node: SyntaxNode, src: Seq<u8>)
    requires
        tree.contains(node),
        leaves_in_source(tree.places(), src),
    ensures
        texts_in_source(tree@, subtree_leaves(tree@, node.index()), src),
{
    let v = tree@;
    let ls = subtree_leaves(v, node.index());
    lemma_subtree_leaves_tokens(v, node.index());
    assert forall|k: int| 0 <= k < ls.len() implies text_in_source(v[#[trigger] ls[k]].place, src) by {
        let x = ls[k];
        assert(tree.places()[x] == v[x].place);
    }
}

// =============================================================================
// The leaves a built tree reads back
// =============================================================================

/// The token nodes among the records `v` at indices `a..e`, in order.
pub open spec fn token_indices(v: Seq<NodeInfo>, a: int, e: int) -> Seq<int>
    decreases e - a,
{
    if a >= e {
        Seq::empty()
    } else {
        (if v[a].place.token is Some {
            seq![a]
        } else {
            Seq::empty()
        }) + token_indices(v, a + 1, e)
    }
}

/// The token records among the first `m` records of `v`, in index order,
/// are the leaves of their places, one for one.
pub proof fn lemma_token_indices_spans(v: Seq<NodeInfo>, m: int)
    requires
        0 <= m <= v.len(),
    ensures
        token_indices(v, 0, m).len() == leaf_spans(places_of_infos(v).take(m)).len(),
        forall|k: int|
            0 <= k < token_indices(v, 0, m).len() ==> {
                let i = #[trigger] token_indices(v, 0, m)[k];
                &&& 0 <= i < m
                &&& v[i].place.token is Some
                &&& leaf_spans(places_of_infos(v).take(m))[k] == (
                    v[i].place.offset as int,
                    v[i].place.token->0,
                )
            },
    decreases m,
{
    let ps = places_of_infos(v);
    if m == 0 {
        assert(ps.take(0) =~= Seq::<NodePlace>::empty());
    } else {
        lemma_token_indices_spans(v, m - 1);
        lemma_token_indices_concat(v, 0, m - 1, m);
        assert(token_indices(v, m, m) == Seq::<int>::empty());
        assert(ps.take(m).drop_last() =~= ps.take(m - 1));
        assert(ps.take(m).last() == v[m - 1].place);
        let ti0 = token_indices(v, 0, m - 1);
        let ti = token_indices(v, 0, m);
        let sp0 = leaf_spans(ps.take(m - 1));
        let sp = leaf_spans(ps.take(m));
        if v[m - 1].place.token is Some {
            assert(token_indices(v, m - 1, m) == seq![m - 1] + token_indices(v, m, m));
            assert(ti =~= ti0.push(m - 1));
            assert(sp == sp0 + seq![(v[m - 1].place.offset as int, v[m - 1].place.token->0)]);
        } else {
            assert(token_indices(v, m - 1, m) == Seq::<int>::empty() + token_indices(v, m, m));
            assert(ti =~= ti0);
            assert(sp =~= sp0);
        }
        assert forall|k: int| 0 <= k < ti.len() implies {
            let i = #[trigger] ti[k];
            &&& 0 <= i < m
            &&& v[i].place.token is Some
            &&& sp[k] == (v[i].place.offset as int, v[i].place.token->0)
        } by {
            if k < ti0.len() {
                assert(ti[k] == ti0[k]);
                assert(sp[k] == sp0[k]);
            }
        }
    }
}

/// Records whose kinds all read back are all kept by [`carried_leaves`].
pub proof fn lemma_carried_all(v: Seq<NodeInfo>, ls: Seq<int>)
    requires
        forall|k: int| 0 <= k < ls.len() ==> carries(v[#[trigger] ls[k]].place.kind),
    ensures
        carried_leaves(v, ls) == ls,
    decreases ls.len(),
{
    if ls.len() > 0 {
        let init = ls.drop_last();
        assert forall|k: int| 0 <= k < init.len() implies carries(v[#[trigger] init[k]].place.kind) by {
            assert(init[k] == ls[k]);
        }
        lemma_carried_all(v, init);
        assert(carries(v[ls[ls.len() - 1]].place.kind));
        assert(init + seq![ls.last()] =~= ls);
    } else {
        assert(ls =~= Seq::<int>::empty());
    }
}

proof fn lemma_token_indices_concat(v: Seq<NodeInfo>, a: int, m: int, e: int)
    requires
        a <= m <= e,
    ensures
        token_indices(v, a, m) + token_indices(v, m, e) == token_indices(v, a, e),
    decreases m - a,
{
    if a == m {
        assert(Seq::<int>::empty() + token_indices(v, m, e) =~= token_indices(v, m, e));
    } else {
        lemma_token_indices_concat(v, a + 1, m, e);
        let head = if v[a].place.token is Some {
            seq![a]
        } else {
            Seq::<int>::empty()
        };
        assert(head + token_indices(v, a + 1, m) + token_indices(v, m, e) =~= head + (token_indices(
            v,
            a + 1,
            m,
        ) + token_indices(v, m, e)));
    }
}

/// The children after the first of a well-formed run are well formed.
proof fn lemma_wf_all_skip(cs: Seq<GreenChild>)
    requires
        cs.len() >= 1,
        wf_all(cs),
    ensures
        wf_all(cs.skip(1)),
    decreases cs.len(),
{
    if cs.len() == 1 {
        assert(cs.skip(1) =~= Seq::<GreenChild>::empty());
    } else {
        lemma_wf_all_skip(cs.drop_last());
        assert(cs.skip(1).drop_last() =~= cs.drop_last().skip(1));
        assert(cs.skip(1).last() == cs.last());
    }
}

/// Sizes and lengths of a run, taken from the front.
proof fn lemma_front(cs: Seq<GreenChild>)
    requires
        cs.len() >= 1,
    ensures
        size_of(cs) == child_size(cs[0]) + size_of(cs.skip(1)),
        sum_lens(cs) == cs[0].spec_len() + sum_lens(cs.skip(1)),
    decreases cs.len(),
{
    if cs.len() == 1 {
        assert(cs.drop_last() =~= Seq::<GreenChild>::empty());
        assert(cs.skip(1) =~= Seq::<GreenChild>::empty());
    } else {
        lemma_front(cs.drop_last());
        assert(cs.drop_last()[0] == cs[0]);
        assert(cs.drop_last().skip(1) =~= cs.skip(1).drop_last());
        assert(cs.skip(1).last() == cs.last());
    }
}

/// The records of a run of children, taken from the front: the first
/// child's, followed by the next child (or by `next` when it is the last),
/// then the rest's.
proof fn lemma_children_info_front(cs: Seq<GreenChild>, off: u32, at: int, parent: u32, next: u32)
    requires
        cs.len() >= 1,
        0 <= at,
        at + size_of(cs) < NONE,
        off + sum_lens(cs) <= u32::MAX,
    ensures
        children_info(cs, off, at, parent, next) == child_info(
            cs[0],
            off,
            at,
            parent,
            (if cs.len() > 1 {
                (at + child_size(cs[0])) as u32
            } else {
                next
            }),
        ) + children_info(cs.skip(1), (off + cs[0].spec_len()) as u32, at + child_size(cs[0]), parent, next),
    decreases cs.len(),
{
    let init = cs.drop_last();
    lemma_sum_lens_nonneg(init);
    lemma_front(cs);
    lemma_sum_lens_nonneg(cs.skip(1));
    assert(cs[0].spec_len() >= 0) by {
        match cs[0] {
            GreenChild::Token(t) => {},
            GreenChild::Node(n) => {},
        }
    }
    if cs.len() == 1 {
        assert(init =~= Seq::<GreenChild>::empty());
        assert(cs.skip(1) =~= Seq::<GreenChild>::empty());
        assert(cs.last() == cs[0]);
        assert(size_of(init) == 0);
        assert(sum_lens(init) == 0);
        assert(children_info(init, off, at, parent, at as u32) =~= Seq::<NodeInfo>::empty());
        assert(((off + sum_lens(init)) as u32) == off);
        assert(children_info(cs, off, at, parent, next) == children_info(init, off, at, parent, at as u32)
            + child_info(cs.last(), (off + sum_lens(init)) as u32, at + size_of(init), parent, next));
        assert(children_info(cs, off, at, parent, next) =~= child_info(cs[0], off, at, parent, next));
        assert(child_info(cs[0], off, at, parent, next) + Seq::<NodeInfo>::empty() =~= child_info(
            cs[0],
            off,
            at,
            parent,
            next,
        ));
    } else {
        let last_at = at + size_of(init);
        assert(cs.last().spec_len() >= 0) by {
            match cs.last() {
                GreenChild::Token(t) => {},
                GreenChild::Node(n) => {},
            }
        }
        lemma_children_info_front(init, off, at, parent, last_at as u32);
        lemma_front(init);
        let rest = cs.skip(1);
        assert(init[0] == cs[0]);
        assert(rest.drop_last() =~= init.skip(1));
        assert(rest.last() == cs.last());
        lemma_front(rest.drop_last().push(rest.last()));
        lemma_sum_lens_nonneg(init.skip(1));
        assert(rest.drop_last().push(rest.last()) =~= rest);
        let x = (at + child_size(cs[0])) as u32;
        assert(children_info(rest, (off + cs[0].spec_len()) as u32, at + child_size(cs[0]), parent, next)
            == children_info(
            init.skip(1),
            (off + cs[0].spec_len()) as u32,
            at + child_size(cs[0]),
            parent,
            last_at as u32,
        ) + child_info(cs.last(), (off + sum_lens(init)) as u32, last_at, parent, next));
        assert(child_info(cs[0], off, at, parent, x) + children_info(
            init.skip(1),
            (off + cs[0].spec_len()) as u32,
            at + child_size(cs[0]),
            parent,
            last_at as u32,
        ) + child_info(cs.last(), (off + sum_lens(init)) as u32, last_at, parent, next) =~= child_info(
            cs[0],
            off,
            at,
            parent,
            x,
        ) + (children_info(
            init.skip(1),
            (off + cs[0].spec_len()) as u32,
            at + child_size(cs[0]),
            parent,
            last_at as u32,
        ) + child_info(cs.last(), (off + sum_lens(init)) as u32, last_at, parent, next)));
    }
}

/// In records that hold a subtree's records at `at`, reading back from its
/// root visits exactly its token nodes, in order.
proof fn lemma_subtree_tokens(v: Seq<NodeInfo>, g: GreenNode, off: u32, at: int, parent: u32, next: u32)
    requires
        g.wf(),
        off + g.len <= u32::MAX,
        0 <= at,
        at + g.size() <= v.len() < NONE,
        v.subrange(at, at + g.size()) == flat_info(g, off, at, parent, next),
    ensures
        subtree_leaves(v, at) == token_indices(v, at, at + g.size()),
    decreases g, 1int,
{
    lemma_flat_info(g, off, at, parent, next);
    assert(v[at] == flat_info(g, off, at, parent, next)[0]);
    match g.children {
        GreenChildren::Node { children } => {
            assert(decreases_to!(g => g.children));
            assert(decreases_to!(g.children => children));
            let cs = children@;
            let ci = children_info(cs, off, at + 1, at as u32, NONE);
            lemma_children_info(cs, off, at + 1, at as u32, NONE);
            if cs.len() > 0 {
                assert(v.subrange(at + 1, at + 1 + size_of(cs)) =~= ci) by {
                    assert forall|k: int| 0 <= k < ci.len() implies v.subrange(at + 1, at + 1 + size_of(cs))[k]
                        == ci[k] by {
                        assert(v.subrange(at, at + g.size())[k + 1] == flat_info(g, off, at, parent, next)[k + 1]);
                    }
                }
                lemma_sibling_tokens(v, cs, off, at + 1, at as u32);
                assert(token_indices(v, at, at + g.size()) == Seq::<int>::empty() + token_indices(
                    v,
                    at + 1,
                    at + g.size(),
                ));
                assert(Seq::<int>::empty() + token_indices(v, at + 1, at + g.size()) =~= token_indices(
                    v,
                    at + 1,
                    at + g.size(),
                ));
            } else {
                assert(token_indices(v, at + 1, at + 1) =~= Seq::<int>::empty());
                assert(token_indices(v, at, at + g.size()) =~= Seq::<int>::empty());
            }
        },
        GreenChildren::Token(t) => {
            assert(token_indices(v, at + 1, at + 1) =~= Seq::<int>::empty());
            assert(token_indices(v, at, at + 1) =~= seq![at]);
        },
        GreenChildren::Empty => {
            assert(token_indices(v, at + 1, at + 1) =~= Seq::<int>::empty());
            assert(token_indices(v, at, at + 1) =~= Seq::<int>::empty());
        },
    }
}

/// In records that hold a run of sibling subtrees at `at`, the last
/// followed by no sibling, reading back from the first visits exactly their
/// token nodes, in order.
proof fn lemma_sibling_tokens(v: Seq<NodeInfo>, cs: Seq<GreenChild>, off: u32, at: int, parent: u32)
    requires
        cs.len() >= 1,
        wf_all(cs),
        off + sum_lens(cs) <= u32::MAX,
        0 <= at,
        at + size_of(cs) <= v.len() < NONE,
        v.subrange(at, at + size_of(cs)) == children_info(cs, off, at, parent, NONE),
    ensures
        sibling_leaves(v, at) == token_indices(v, at, at + size_of(cs)),
    decreases cs, 0int,
{
    let c0 = cs[0];
    let rest = cs.skip(1);
    let s0 = child_size(c0);
    let x = if cs.len() > 1 {
        (at + s0) as u32
    } else {
        NONE
    };
    lemma_front(cs);
    lemma_wf_all_index(cs, 0);
    lemma_wf_all_skip(cs);
    lemma_sum_lens_nonneg(rest);
    assert(c0.spec_len() >= 0) by {
        match c0 {
            GreenChild::Token(t) => {},
            GreenChild::Node(n) => {},
        }
    }
    lemma_children_info_front(cs, off, at, parent, NONE);
    lemma_child_info(c0, off, at, parent, x);
    let c0i = child_info(c0, off, at, parent, x);
    let resti = children_info(rest, (off + c0.spec_len()) as u32, at + s0, parent, NONE);
    lemma_children_info(rest, (off + c0.spec_len()) as u32, at + s0, parent, NONE);
    assert(v.subrange(at, at + s0) =~= c0i) by {
        assert forall|k: int| 0 <= k < s0 implies v.subrange(at, at + s0)[k] == c0i[k] by {
            assert(v.subrange(at, at + size_of(cs))[k] == (c0i + resti)[k]);
        }
    }
    assert(decreases_to!(cs => cs[0]));
    lemma_child_tokens(v, c0, off, at, parent, x);
    assert(v[at] == c0i[0]);
    assert(v[at].next_sibling == x) by {
        lemma_child_info(c0, off, at, parent, NONE);
    }
    lemma_token_indices_concat(v, at, at + s0, at + size_of(cs));
    if cs.len() > 1 {
        assert(v.subrange(at + s0, at + size_of(cs)) =~= resti) by {
            assert forall|k: int| 0 <= k < resti.len() implies v.subrange(at + s0, at + size_of(cs))[k] == resti[k] by {
                assert(v.subrange(at, at + size_of(cs))[s0 + k] == (c0i + resti)[s0 + k]);
            }
        }
        assert(decreases_to!(cs => cs.skip(1)));
        lemma_sibling_tokens(v, rest, (off + c0.spec_len()) as u32, at + s0, parent);
    } else {
        assert(rest =~= Seq::<GreenChild>::empty());
        assert(token_indices(v, at + s0, at + size_of(cs)) =~= Seq::<int>::empty());
        assert(subtree_leaves(v, at) + Seq::<int>::empty() =~= subtree_leaves(v, at));
    }
}

/// The child version of [`lemma_subtree_tokens`].
proof fn lemma_child_tokens(v: Seq<NodeInfo>, c: GreenChild, off: u32, at: int, parent: u32, next: u32)
    requires
        child_wf(c),
        off + c.spec_len() <= u32::MAX,
        0 <= at,
        at + child_size(c) <= v.len() < NONE,
        v.subrange(at, at + child_size(c)) == child_info(c, off, at, parent, next),
    ensures
        subtree_leaves(v, at) == token_indices(v, at, at + child_size(c)),
    decreases c, 2int,
{
    match c {
        GreenChild::Token(t) => {
            assert(v[at] == child_info(c, off, at, parent, next)[0]);
            assert(token_indices(v, at + 1, at + 1) =~= Seq::<int>::empty());
            assert(token_indices(v, at, at + 1) =~= seq![at]);
        },
        GreenChild::Node(n) => {
            assert(decreases_to!(c => n));
            lemma_subtree_tokens(v, n, off, at, parent, next);
        },
    }
}

/// Reading back from the root of a tree built from a green tree visits every
/// token node of the tree, in pre-order.
pub proof fn lemma_root_reads_all(tree: SyntaxTree, root: GreenNode)
    requires
        root.wf(),
        root.size() < NONE,
        tree@ == flat_info(root, 0, 0, NONE, NONE),
    ensures
        subtree_leaves(tree@, 0) == token_indices(tree@, 0, tree@.len() as int),
{
    lemma_flat_info(root, 0, 0, NONE, NONE);
    assert(tree@.subrange(0, root.size() as int) =~= tree@);
    lemma_subtree_tokens(tree@, root, 0, 0, NONE, NONE);
}

/// Filtering distributes over concatenation.
proof fn lemma_carried_concat(v: Seq<NodeInfo>, a: Seq<int>, b: Seq<int>)
    ensures
        carried_leaves(v, a + b) == carried_leaves(v, a) + carried_leaves(v, b),
    decreases b.len(),
{
    if b.len() == 0 {
        assert(a + b =~= a);
        assert(carried_leaves(v, a) + Seq::<int>::empty() =~= carried_leaves(v, a));
    } else {
        assert((a + b).drop_last() =~= a + b.drop_last());
        assert((a + b).last() == b.last());
        lemma_carried_concat(v, a, b.drop_last());
        let tail = if carries(v[b.last()].place.kind) {
            seq![b.last()]
        } else {
            Seq::empty()
        };
        assert(carried_leaves(v, a) + carried_leaves(v, b.drop_last()) + tail =~= carried_leaves(v, a) + (
        carried_leaves(v, b.drop_last()) + tail));
    }
}

/// Read-back runs concatenate.
proof fn lemma_read_back_concat(
    a: Seq<Spanned<BalancedToken>>,
    b: Seq<Spanned<BalancedToken>>,
    v: Seq<NodeInfo>,
    x: Seq<int>,
    y: Seq<int>,
    src: Seq<u8>,
)
    requires
        read_back_all(a, v, x, src),
        read_back_all(b, v, y, src),
    ensures
        read_back_all(a + b, v, x + y, src),
{
    assert forall|k: int| 0 <= k < (a + b).len() implies reads_back(
        #[trigger] (a + b)[k],
        v[(x + y)[k]].place,
        src,
    ) by {
        if k < a.len() {
            assert((a + b)[k] == a[k]);
            assert((x + y)[k] == x[k]);
        } else {
            assert((a + b)[k] == b[k - a.len()]);
            assert((x + y)[k] == y[k - x.len()]);
        }
    }
}

/// Texts in source of a concatenation are those of both parts.
proof fn lemma_texts_split(v: Seq<NodeInfo>, a: Seq<int>, b: Seq<int>, src: Seq<u8>)
    requires
        texts_in_source(v, a + b, src),
    ensures
        texts_in_source(v, a, src),
        texts_in_source(v, b, src),
{
    assert forall|k: int| 0 <= k < a.len() implies text_in_source(v[#[trigger] a[k]].place, src) by {
        assert((a + b)[k] == a[k]);
    }
    assert forall|k: int| 0 <= k < b.len() implies text_in_source(v[#[trigger] b[k]].place, src) by {
        assert((a + b)[k + a.len()] == b[k]);
    }
}

/// Append to `tokens` what the token nodes of the subtree rooted at `node`
/// read back as.
fn collect_tokens(
    tree: &SyntaxTree,
    node: SyntaxNode,
    source: &str,
    tokens: &mut Vec<Spanned<BalancedToken>>,
)
    requires
        tree.contains(node),
        texts_in_source(tree@, subtree_leaves(tree@, node.index()), source.spec_bytes()),
    ensures
        final(tokens)@.len() >= old(tokens)@.len(),
        final(tokens)@.take(old(tokens)@.len() as int) == old(tokens)@,
        read_back_all(
            final(tokens)@.skip(old(tokens)@.len() as int),
            tree@,
            carried_leaves(tree@, subtree_leaves(tree@, node.index())),
            source.spec_bytes(),
        ),
    decreases tree@.len() - node.index(),
{
    let ghost v = tree@;
    let ghost src = source.spec_bytes();
    let ghost i = node.index();
    let ghost old_tokens = tokens@;
    let _source_len = source.as_bytes().len();
    if tree.is_token(node) {
        proof {
            assert(subtree_leaves(v, i) == seq![i]);
            assert(seq![i][0] == i);
            assert(text_in_source(v[i].place, src));
            assert(carried_leaves(v, seq![i]) == carried_leaves(v, Seq::<int>::empty()) + if carries(
                v[i].place.kind,
            ) {
                seq![i]
            } else {
                Seq::<int>::empty()
            }) by {
                assert(seq![i].drop_last() =~= Seq::<int>::empty());
            }
        }
        let kind = tree.kind(node);
        let token = tree.as_token(node).unwrap();
        let text = tree.text(node, source).unwrap();
        let start = tree.offset(node) as usize + token.leading_trivia as usize;
        let end = start + text.len();
        proof {
            vstd::utf8::encode_utf8_decode_utf8(text@);
        }
        let cs = chars_of(text);
        match read_token(kind, cs.as_slice()) {
            Some(t) => {
                let span = Span::new(start..end, ContextId::from_index(0));
                tokens.push(Spanned::new(t, span));
                proof {
                    assert(tokens@.take(old_tokens.len() as int) =~= old_tokens);
                    assert(tokens@.skip(old_tokens.len() as int) =~= seq![tokens@.last()]);
                    assert(carried_leaves(v, seq![i]) =~= seq![i]);
                }
            },
            None => {
                proof {
                    assert(tokens@.take(old_tokens.len() as int) =~= old_tokens);
                    assert(tokens@.skip(old_tokens.len() as int) =~= Seq::<Spanned<BalancedToken>>::empty());
                    assert(carried_leaves(v, seq![i]) =~= Seq::<int>::empty());
                }
            },
        }
    } else {
        let ghost fc = v[i].first_child as int;
        proof {
            use_type_invariant(tree);
            tree.lemma_view();
            assert(link_ok(tree.nodes@, tree.greens@, i));
        }
        let mut cur = tree.first_child(node);
        let ghost mut done: Seq<int> = Seq::empty();
        proof {
            assert(subtree_leaves(v, i) == done + match cur {
                Some(c) => sibling_leaves(v, c.index()),
                None => Seq::<int>::empty(),
            });
            assert(tokens@.take(old_tokens.len() as int) =~= old_tokens);
            assert(tokens@.skip(old_tokens.len() as int) =~= Seq::<Spanned<BalancedToken>>::empty());
            assert(carried_leaves(v, done) =~= Seq::<int>::empty());
        }
        while cur.is_some()
            invariant
                v == tree@,
                src == source.spec_bytes(),
                0 <= i < v.len() < NONE,
                i == node.index(),
                texts_in_source(v, subtree_leaves(v, i), src),
                cur matches Some(c) ==> tree.contains(c) && c.index() > i,
                subtree_leaves(v, i) == done + match cur {
                    Some(c) => sibling_leaves(v, c.index()),
                    None => Seq::<int>::empty(),
                },
                tokens@.len() >= old_tokens.len(),
                tokens@.take(old_tokens.len() as int) == old_tokens,
                read_back_all(tokens@.skip(old_tokens.len() as int), v, carried_leaves(v, done), src),
            decreases v.len() - match cur {
                Some(c) => c.index(),
                None => v.len() as int,
            },
        {
            let c = cur.unwrap();
            let ghost ci = c.index();
            let ghost rest = if ci < v[ci].next_sibling < v.len() {
                sibling_leaves(v, v[ci].next_sibling as int)
            } else {
                Seq::<int>::empty()
            };
            let ghost mid = tokens@;
            proof {
                assert(sibling_leaves(v, ci) == subtree_leaves(v, ci) + rest);
                assert(subtree_leaves(v, i) =~= done + (subtree_leaves(v, ci) + rest));
                assert(done + (subtree_leaves(v, ci) + rest) =~= (done + subtree_leaves(v, ci)) + rest);
                lemma_texts_split(v, done + subtree_leaves(v, ci), rest, src);
                lemma_texts_split(v, done, subtree_leaves(v, ci), src);
            }
            collect_tokens(tree, c, source, tokens);
            proof {
                lemma_carried_concat(v, done, subtree_leaves(v, ci));
                assert(tokens@.skip(old_tokens.len() as int) =~= mid.skip(old_tokens.len() as int)
                    + tokens@.skip(mid.len() as int)) by {
                    assert(tokens@.take(mid.len() as int) == mid);
                }
                lemma_read_back_concat(
                    mid.skip(old_tokens.len() as int),
                    tokens@.skip(mid.len() as int),
                    v,
                    carried_leaves(v, done),
                    carried_leaves(v, subtree_leaves(v, ci)),
                    src,
                );
                assert(tokens@.take(old_tokens.len() as int) =~= mid.take(old_tokens.len() as int)) by {
                    assert(tokens@.take(mid.len() as int) == mid);
                }
                done = done + subtree_leaves(v, ci);
            }
            cur = tree.next_sibling(c);
            proof {
                assert(subtree_leaves(v, i) == done + rest);
                assert(subtree_leaves(v, i) == done + match cur {
                    Some(c2) => sibling_leaves(v, c2.index()),
                    None => Seq::<int>::empty(),
                }) by {
                    match cur {
                        Some(c2) => {
                            assert(c2.index() == v[ci].next_sibling);
                        },
                        None => {
                            assert(v[ci].next_sibling == NONE);
                            assert(rest == Seq::<int>::empty());
                        },
                    }
                }
            }
        }
        proof {
            assert(done + Seq::<int>::empty() =~= done);
        }
    }
}

/// The nodes `c`, its next sibling, the next sibling of that one, and so
/// on, following the links of `v`.
pub open spec fn siblings_from(v: Seq<NodeInfo>, c: int) -> Seq<int>
    decreases v.len() - c,
{
    if 0 <= c < v.len() {
        seq![c] + if c < v[c].next_sibling < v.len() {
            siblings_from(v, v[c].next_sibling as int)
        } else {
            Seq::empty()
        }
    } else {
        Seq::empty()
    }
}

/// Iterator over the children of a [`SyntaxNode`].
pub struct SyntaxChildren<'a> {
    pub tree: &'a SyntaxTree,
    /// Index of the next child to return, or [`NONE`].
    pub current: u32,
}

impl<'a> SyntaxChildren<'a> {
    /// The next child, if any is left.
    pub fn next(&mut self) -> (r: Option<SyntaxNode>)
        requires
            old(self).current == NONE || old(self).current < old(self).tree@.len(),
        ensures
            final(self).tree == old(self).tree,
            old(self).current == NONE ==> r is None && final(self).current == NONE,
            old(self).current != NONE ==> {
                &&& r matches Some(n) && n.index() == old(self).current
                &&& final(self).current == old(self).tree@[old(self).current as int].next_sibling
            },
            final(self).current == NONE || final(self).current < final(self).tree@.len(),
    {
        if self.current == NONE {
            return None;
        }
        let node = SyntaxNode { idx: self.current };
        let tree: &'a SyntaxTree = self.tree;
        proof {
            use_type_invariant(tree);
            tree.lemma_view();
        }
        self.current = tree.data(node).next_sibling;
        Some(node)
    }

    /// The remaining children, in order.
    pub fn collect(self) -> (r: Vec<SyntaxNode>)
        requires
            self.current == NONE || self.current < self.tree@.len(),
        ensures
            r@.map_values(|n: SyntaxNode| n.index()) == siblings_from(self.tree@, self.current as int),
            forall|j: int| 0 <= j < r@.len() ==> self.tree.contains(#[trigger] r@[j]),
    {
        let tree: &SyntaxTree = self.tree;
        proof {
            use_type_invariant(tree);
            tree.lemma_view();
        }
        let ghost v = self.tree@;
        let mut it = self;
        let mut out: Vec<SyntaxNode> = Vec::new();
        proof {
            assert(out@.map_values(|n: SyntaxNode| n.index()) =~= Seq::<int>::empty());
        }
        loop
            invariant
                it.tree == self.tree,
                v == self.tree@,
                v.len() < NONE,
                it.current == NONE || it.current < it.tree@.len(),
                forall|j: int| 0 <= j < out@.len() ==> self.tree.contains(#[trigger] out@[j]),
                out@.map_values(|n: SyntaxNode| n.index()) + siblings_from(v, it.current as int)
                    == siblings_from(v, self.current as int),
            ensures
                forall|j: int| 0 <= j < out@.len() ==> self.tree.contains(#[trigger] out@[j]),
                out@.map_values(|n: SyntaxNode| n.index()) == siblings_from(v, self.current as int),
            decreases (if it.current == NONE { 0 } else { it.tree@.len() - it.current }),
        {
            let ghost before = it.current;
            let ghost done = out@;
            proof {
                use_type_invariant(it.tree);
                it.tree.lemma_view();
                if before != NONE {
                    assert(it.tree@[before as int].next_sibling == NONE || it.tree@[before as int].next_sibling
                        > before);
                }
            }
            match it.next() {
                Some(n) => {
                    out.push(n);
                    proof {
                        let nx = v[before as int].next_sibling;
                        assert(nx == NONE || before < nx < v.len());
                        assert(siblings_from(v, before as int) == seq![before as int] + siblings_from(
                            v,
                            nx as int,
                        ));
                        assert(out@.map_values(|m: SyntaxNode| m.index()) =~= done.map_values(
                            |m: SyntaxNode| m.index(),
                        ).push(before as int));
                        assert(out@.map_values(|m: SyntaxNode| m.index()) + siblings_from(v, nx as int)
                            =~= done.map_values(|m: SyntaxNode| m.index()) + siblings_from(
                            v,
                            before as int,
                        ));
                    }
                },
                None => {
                    proof {
                        assert(siblings_from(v, NONE as int) =~= Seq::<int>::empty());
                        assert(out@.map_values(|m: SyntaxNode| m.index()) + Seq::<int>::empty()
                            =~= out@.map_values(|m: SyntaxNode| m.index()));
                    }
                    break;
                },
            }
        }
        out
    }

    /// The number of remaining children.
    pub fn count(self) -> (r: usize)
        requires
            self.current == NONE || self.current < self.tree@.len(),
        ensures
            r == siblings_from(self.tree@, self.current as int).len(),
    {
        let v = self.collect();
        v.len()
    }
}

/// The records `v` with the record at `p` (unless `p` is [`NONE`]) followed
/// by the sibling `r`.
spec fn link_next(v: Seq<NodeInfo>, p: u32, r: u32) -> Seq<NodeInfo> {
    if p == NONE || p >= v.len() {
        v
    } else {
        v.update(p as int, NodeInfo { next_sibling: r, ..v[p as int] })
    }
}

/// Append the pre-order records of `green` to `nodes`/`greens`, linking it
/// under `parent` and after `prev_sibling`. Returns the index of its record.
fn build_recursive(
    green: &GreenNode,
    parent: u32,
    prev_sibling: u32,
    offset: u32,
    nodes: &mut Vec<SyntaxNodeData>,
    greens: &mut Vec<GreenNode>,
) -> (r: u32)
    requires
        green.wf(),
        old(nodes)@.len() + green.size() < NONE,
        offset + green.len <= u32::MAX,
        parent == NONE || parent < old(nodes)@.len(),
        prev_sibling == NONE || prev_sibling < old(nodes)@.len(),
        prev_sibling != NONE ==> old(nodes)@[prev_sibling as int].parent == parent,
        links_ok(old(nodes)@, old(greens)@),
    ensures
        r == old(nodes)@.len(),
        final(nodes)@.len() == old(nodes)@.len() + green.size(),
        infos_of(final(nodes)@, final(greens)@) == link_next(infos_of(old(nodes)@, old(greens)@), prev_sibling, r)
            + flat_info(*green, offset, r as int, parent, NONE),
        links_ok(final(nodes)@, final(greens)@),
        final(nodes)@[r as int].parent == parent,
        forall|j: int| 0 <= j < old(nodes)@.len() && j != prev_sibling ==> #[trigger] final(nodes)@[j] == old(nodes)@[j],
        prev_sibling != NONE ==> final(nodes)@[prev_sibling as int] == (SyntaxNodeData {
            next_sibling: r,
            ..old(nodes)@[prev_sibling as int]
        }),
        forall|j: int| 0 <= j < old(greens)@.len() ==> #[trigger] final(greens)@[j] == old(greens)@[j],
        copy_of(*green, final(greens)@[r as int]),
        forall|j: int| 0 <= j < green.size() ==> copy_of(#[trigger] flat_greens(*green)[j], final(greens)@[r + j]),
    decreases *green,
{
    let my_idx = nodes.len() as u32;
    proof {
        lemma_size_pos(*green);
    }
    let ghost infos0 = infos_of(nodes@, greens@);
    nodes.push(SyntaxNodeData { offset, parent, first_child: NONE, next_sibling: NONE });
    greens.push(green.deep_clone());
    let ghost me0 = NodeInfo {
        place: NodePlace { offset, kind: green.kind, len: green.len, token: green.spec_token() },
        parent,
        first_child: NONE,
        next_sibling: NONE,
    };
    // Link previous sibling to this node
    if prev_sibling != NONE {
        let d = nodes[prev_sibling as usize];
        nodes.set(prev_sibling as usize, SyntaxNodeData { next_sibling: my_idx, ..d });
    }
    let ghost i0 = link_next(infos0, prev_sibling, my_idx);
    proof {
        assert(infos_of(nodes@, greens@) =~= i0.push(me0));
        lemma_links_after_push(old(nodes)@, old(greens)@, nodes@, greens@, parent, prev_sibling);
    }
    // Build children if internal node
    match &green.children {
        GreenChildren::Node { children } => {
            let mut child_offset = offset;
            let mut prev_child: u32 = NONE;
            let mut first: u32 = NONE;
            let mut j: usize = 0;
            proof {
                assert(children@.take(0) =~= Seq::<GreenChild>::empty());
                assert(i0.push(me0) + children_info(children@.take(0), offset, my_idx + 1, my_idx, NONE)
                    =~= i0.push(me0));
            }
            while j < children.len()
                invariant
                    green.children is Node,
                    green.children->children == *children,
                    green.wf(),
                    wf_all(children@),
                    green.len == sum_lens(children@),
                    green.size() == 1 + size_of(children@),
                    old(nodes)@.len() + green.size() < NONE,
                    offset + green.len <= u32::MAX,
                    my_idx == old(nodes)@.len(),
                    0 <= j <= children@.len(),
                    nodes@.len() == my_idx + 1 + size_of(children@.take(j as int)),
                    child_offset == offset + sum_lens(children@.take(j as int)),
                    i0.len() == my_idx,
                    infos_of(nodes@, greens@) == i0.push(me0) + children_info(
                        children@.take(j as int),
                        offset,
                        my_idx + 1,
                        my_idx,
                        NONE,
                    ),
                    links_ok(nodes@, greens@),
                    nodes@[my_idx as int].parent == parent,
                    nodes@[my_idx as int].first_child == NONE,
                    greens@[my_idx as int].spec_token() is None,
                    copy_of(*green, greens@[my_idx as int]),
                    forall|q: int| 0 <= q < size_of(children@.take(j as int)) ==> copy_of(
                        #[trigger] children_greens(children@.take(j as int))[q],
                        greens@[my_idx + 1 + q],
                    ),
                    prev_child == NONE <==> j == 0,
                    j > 0 ==> prev_child == my_idx + 1 + size_of(children@.take(j - 1)),
                    prev_child != NONE ==> my_idx < prev_child < nodes@.len() && nodes@[prev_child as int].parent
                        == my_idx,
                    first == NONE <==> j == 0,
                    first != NONE ==> first == my_idx + 1 && first < nodes@.len() && nodes@[first as int].parent
                        == my_idx,
                    forall|q: int| 0 <= q < old(nodes)@.len() && q != prev_sibling ==> #[trigger] nodes@[q] == old(nodes)@[q],
                    prev_sibling != NONE ==> nodes@[prev_sibling as int] == (SyntaxNodeData {
                        next_sibling: my_idx,
                        ..old(nodes)@[prev_sibling as int]
                    }),
                    forall|q: int| 0 <= q < old(greens)@.len() ==> #[trigger] greens@[q] == old(greens)@[q],
                    greens@.len() == nodes@.len(),
                    prev_sibling == NONE || prev_sibling < old(nodes)@.len(),
                    old(greens)@.len() == old(nodes)@.len(),
                decreases children@.len() - j,
            {
                proof {
                    assert(children@.take(j + 1).drop_last() =~= children@.take(j as int));
                    assert(children@.take(j + 1).last() == children@[j as int]);
                    lemma_size_of_prefix(children@, j as int + 1);
                    lemma_sum_lens_prefix(children@, j as int + 1);
                    lemma_sum_lens_take_succ(children@, j as int);
                    lemma_sum_lens_nonneg(children@.take(j as int));
                    lemma_wf_all_index(children@, j as int);
                    assert(decreases_to!(*green => green.children));
                    assert(decreases_to!(green.children => green.children->children));
                    assert(decreases_to!(*children => children[j as int]));
                }
                let child = &children[j];
                let child_len = child.len();
                let ghost before = infos_of(nodes@, greens@);
                let ghost greens_before = greens@;
                let child_idx = build_recursive_green_child(child, my_idx, prev_child, child_offset, nodes, greens);
                proof {
                    let tj = children@.take(j as int);
                    let tj1 = children@.take(j + 1);
                    lemma_children_greens_len(tj);
                    lemma_child_greens_len(children@[j as int]);
                    assert(children_greens(tj1) == children_greens(tj) + child_greens(children@[j as int]));
                    assert(child_idx == my_idx + 1 + size_of(tj));
                    assert(size_of(tj1) == size_of(tj) + child_size(children@[j as int]));
                    assert forall|q: int| 0 <= q < size_of(tj1) implies copy_of(
                        #[trigger] children_greens(tj1)[q],
                        greens@[my_idx + 1 + q],
                    ) by {
                        if q < size_of(tj) {
                            assert(children_greens(tj1)[q] == children_greens(tj)[q]);
                            assert(greens@[my_idx + 1 + q] == greens_before[my_idx + 1 + q]);
                        } else {
                            let k = q - size_of(tj);
                            assert(children_greens(tj1)[q] == child_greens(children@[j as int])[k]);
                            assert(greens@[child_idx + k] == greens@[my_idx + 1 + q]);
                        }
                    }
                }
                proof {
                    let at = my_idx + 1;
                    let tj = children@.take(j as int);
                    let tj1 = children@.take(j + 1);
                    let a = i0.push(me0);
                    lemma_children_info(tj, offset, at, my_idx, NONE);
                    lemma_children_info(tj, offset, at, my_idx, child_idx);
                    assert(children_info(tj1, offset, at, my_idx, NONE) == children_info(
                        tj,
                        offset,
                        at,
                        my_idx,
                        child_idx,
                    ) + child_info(children@[j as int], child_offset, child_idx as int, my_idx, NONE));
                    if j > 0 {
                        assert(tj.drop_last() =~= children@.take(j - 1));
                        let ci0 = children_info(tj, offset, at, my_idx, NONE);
                        let s = size_of(children@.take(j - 1)) as int;
                        assert(link_next(before, prev_child, child_idx) =~= a + children_info(
                            tj,
                            offset,
                            at,
                            my_idx,
                            child_idx,
                        )) by {
                            assert(prev_child as int == a.len() + s);
                            assert((a + ci0).update(a.len() + s, NodeInfo { next_sibling: child_idx, ..(a + ci0)[a.len() + s] })
                                =~= a + ci0.update(s, NodeInfo { next_sibling: child_idx, ..ci0[s] }));
                        }
                    } else {
                        assert(tj =~= Seq::<GreenChild>::empty());
                        assert(children_info(tj, offset, at, my_idx, child_idx) =~= Seq::<NodeInfo>::empty());
                        assert(children_info(tj, offset, at, my_idx, NONE) =~= Seq::<NodeInfo>::empty());
                        assert(link_next(before, prev_child, child_idx) == before);
                    }
                    assert(infos_of(nodes@, greens@) =~= a + children_info(tj1, offset, at, my_idx, NONE));
                }
                if first == NONE {
                    first = child_idx;
                }
                prev_child = child_idx;
                child_offset = child_offset + child_len;
                j = j + 1;
            }
            proof {
                assert(children@.take(j as int) =~= children@);
                assert(green.spec_children() == children@);
                assert(flat_greens(*green) == seq![*green] + children_greens(children@));
            }
            let ghost greens_done = greens@;
            let ghost ci = children_info(children@, offset, my_idx + 1, my_idx, NONE);
            let ghost me = NodeInfo {
                first_child: if children@.len() > 0 {
                    (my_idx + 1) as u32
                } else {
                    NONE
                },
                ..me0
            };
            proof {
                assert(green.spec_children() == children@);
                assert(flat_info(*green, offset, my_idx as int, parent, NONE) == seq![me] + ci);
            }
            if first != NONE {
                let d = nodes[my_idx as usize];
                let ghost before_set = nodes@;
                let ghost before_infos = infos_of(nodes@, greens@);
                nodes.set(my_idx as usize, SyntaxNodeData { first_child: first, ..d });
                proof {
                    lemma_links_after_first_child(before_set, greens@, nodes@, my_idx as int, first);
                    assert(before_infos[my_idx as int] == me0);
                    assert(children@.len() > 0);
                    assert(first == my_idx + 1);
                    assert(nodes@[my_idx as int] == SyntaxNodeData { first_child: first, ..before_set[my_idx as int] });
                    assert forall|k: int| 0 <= k < nodes@.len() implies #[trigger] infos_of(nodes@, greens@)[k]
                        == before_infos.update(my_idx as int, me)[k] by {
                        if k != my_idx {
                            assert(nodes@[k] == before_set[k]);
                        }
                    }
                    assert(infos_of(nodes@, greens@) =~= before_infos.update(my_idx as int, me));
                    assert((i0.push(me0) + ci).update(my_idx as int, me) =~= i0 + (seq![me] + ci));
                }
            } else {
                proof {
                    assert(me == me0);
                    assert(i0.push(me0) + ci =~= i0 + (seq![me] + ci));
                }
            }
            proof {
                assert(greens@ == greens_done);
                assert(green.size() == 1 + size_of(children@));
                lemma_children_greens_len(children@);
                assert forall|q: int| 0 <= q < green.size() implies copy_of(
                    #[trigger] flat_greens(*green)[q],
                    greens@[my_idx + q],
                ) by {
                    if q > 0 {
                        assert(flat_greens(*green)[q] == children_greens(children@)[q - 1]);
                    }
                }
            }
        },
        _ => {
            proof {
                assert(infos_of(nodes@, greens@) =~= i0 + flat_info(*green, offset, my_idx as int, parent, NONE));
                assert(flat_greens(*green) == seq![*green]);
            }
        },
    }
    my_idx
}

fn build_recursive_green_child(
    child: &GreenChild,
    parent: u32,
    prev_sibling: u32,
    offset: u32,
    nodes: &mut Vec<SyntaxNodeData>,
    greens: &mut Vec<GreenNode>,
) -> (r: u32)
    requires
        child_wf(*child),
        old(nodes)@.len() + child_size(*child) < NONE,
        offset + child.spec_len() <= u32::MAX,
        parent < old(nodes)@.len(),
        prev_sibling == NONE || prev_sibling < old(nodes)@.len(),
        prev_sibling != NONE ==> old(nodes)@[prev_sibling as int].parent == parent,
        links_ok(old(nodes)@, old(greens)@),
    ensures
        r == old(nodes)@.len(),
        final(nodes)@.len() == old(nodes)@.len() + child_size(*child),
        infos_of(final(nodes)@, final(greens)@) == link_next(infos_of(old(nodes)@, old(greens)@), prev_sibling, r)
            + child_info(*child, offset, r as int, parent, NONE),
        links_ok(final(nodes)@, final(greens)@),
        final(nodes)@[r as int].parent == parent,
        forall|j: int| 0 <= j < old(nodes)@.len() && j != prev_sibling ==> #[trigger] final(nodes)@[j] == old(nodes)@[j],
        prev_sibling != NONE ==> final(nodes)@[prev_sibling as int] == (SyntaxNodeData {
            next_sibling: r,
            ..old(nodes)@[prev_sibling as int]
        }),
        forall|j: int| 0 <= j < old(greens)@.len() ==> #[trigger] final(greens)@[j] == old(greens)@[j],
        forall|j: int| 0 <= j < child_size(*child) ==> copy_of(#[trigger] child_greens(*child)[j], final(greens)@[r + j]),
    decreases *child,
{
    match child {
        GreenChild::Token(token) => {
            let my_idx = nodes.len() as u32;
            let green = GreenNode::token(token.kind, token.len, token.leading_trivia, token.trailing_trivia);
            let ghost infos0 = infos_of(nodes@, greens@);
            nodes.push(SyntaxNodeData { offset, parent, first_child: NONE, next_sibling: NONE });
            greens.push(green);
            proof {
                assert(green == token_node(*token));
                assert(child_greens(*child) == seq![token_node(*token)]);
                assert(copy_of(token_node(*token), greens@[my_idx as int]));
            }
            if prev_sibling != NONE {
                let d = nodes[prev_sibling as usize];
                nodes.set(prev_sibling as usize, SyntaxNodeData { next_sibling: my_idx, ..d });
            }
            proof {
                assert(infos_of(nodes@, greens@) =~= link_next(infos0, prev_sibling, my_idx) + child_info(
                    *child,
                    offset,
                    my_idx as int,
                    parent,
                    NONE,
                ));
                lemma_links_after_push(old(nodes)@, old(greens)@, nodes@, greens@, parent, prev_sibling);
            }
            my_idx
        },
        GreenChild::Node(green_node) => {
            proof {
                assert(decreases_to!(*child => *green_node));
                assert(child_greens(*child) == flat_greens(*green_node));
                assert(child_size(*child) == green_node.size());
            }
            build_recursive(green_node, parent, prev_sibling, offset, nodes, greens)
        },
    }
}

/// Pushing a new node under `parent` after `prev` (which gets it as next
/// sibling) keeps the links consistent.
proof fn lemma_links_after_push(
    ns0: Seq<SyntaxNodeData>,
    gs0: Seq<GreenNode>,
    ns: Seq<SyntaxNodeData>,
    gs: Seq<GreenNode>,
    parent: u32,
    prev: u32,
)
    requires
        links_ok(ns0, gs0),
        ns0.len() + 1 < NONE,
        parent == NONE || parent < ns0.len(),
        prev == NONE || (prev < ns0.len() && ns0[prev as int].parent == parent),
        ns.len() == ns0.len() + 1,
        gs.len() == gs0.len() + 1,
        forall|j: int| 0 <= j < gs0.len() ==> #[trigger] gs[j] == gs0[j],
        forall|j: int| 0 <= j < ns0.len() && j != prev ==> #[trigger] ns[j] == ns0[j],
        prev != NONE ==> ns[prev as int] == (SyntaxNodeData { next_sibling: ns0.len() as u32, ..ns0[prev as int] }),
        ns[ns0.len() as int] == (SyntaxNodeData {
            offset: ns[ns0.len() as int].offset,
            parent,
            first_child: NONE,
            next_sibling: NONE,
        }),
        gs[gs0.len() as int].spec_token() matches Some(t) ==> gs[gs0.len() as int].len
            == t.spec_total_len(),
        ns[ns0.len() as int].offset + gs[gs0.len() as int].len <= u32::MAX,
    ensures
        links_ok(ns, gs),
{
    let m = ns0.len() as int;
    assert forall|i: int| 0 <= i < ns.len() implies link_ok(ns, gs, i) by {
        if i < m {
            assert(link_ok(ns0, gs0, i));
            assert(gs[i] == gs0[i]);
            let d0 = ns0[i];
            if d0.first_child != NONE {
                let f = d0.first_child as int;
                assert(ns[f].parent == ns0[f].parent);
            }
            if d0.next_sibling != NONE {
                let x = d0.next_sibling as int;
                assert(ns[x].parent == ns0[x].parent);
            }
        }
    }
}

/// Setting the first child of node `i`, whose children all come after it,
/// keeps the links consistent.
proof fn lemma_links_after_first_child(
    ns0: Seq<SyntaxNodeData>,
    gs: Seq<GreenNode>,
    ns: Seq<SyntaxNodeData>,
    i: int,
    first: u32,
)
    requires
        links_ok(ns0, gs),
        0 <= i < ns0.len(),
        ns0[i].first_child == NONE,
        gs[i].spec_token() is None,
        first != NONE,
        i < first < ns0.len(),
        ns0[first as int].parent == i,
        ns == ns0.update(i, SyntaxNodeData { first_child: first, ..ns0[i] }),
    ensures
        links_ok(ns, gs),
{
    assert forall|k: int| 0 <= k < ns.len() implies link_ok(ns, gs, k) by {
        assert(link_ok(ns0, gs, k));
        let d0 = ns0[k];
        if d0.first_child != NONE {
            let f = d0.first_child as int;
            assert(ns[f].parent == ns0[f].parent);
        }
        if d0.next_sibling != NONE {
            let x = d0.next_sibling as int;
            assert(ns[x].parent == ns0[x].parent);
        }
        if k == i {
            assert(ns[first as int].parent == ns0[first as int].parent);
        }
    }
}

/// Every green subtree yields at least one red node.
proof fn lemma_size_pos(g: GreenNode)
    ensures
        g.size() >= 1,
{
}

/// The green node that the child `c` stands for in a syntax tree.
pub open spec fn child_green(c: GreenChild) -> GreenNode {
    match c {
        GreenChild::Token(t) => token_node(t),
        GreenChild::Node(n) => n,
    }
}

/// The sibling that follows child `k` of the run `cs` listed from index
/// `at`, the last one followed by `next`.
pub open spec fn next_of(cs: Seq<GreenChild>, k: int, at: int, next: u32) -> u32 {
    if k + 1 < cs.len() {
        (at + size_of(cs.take(k + 1))) as u32
    } else {
        next
    }
}

/// In the listing of a run, child `k` is listed from its place on.
proof fn lemma_run_child(cs: Seq<GreenChild>, off: u32, at: int, parent: u32, next: u32, k: int)
    requires
        0 <= k < cs.len(),
    ensures
        ({
            let s = size_of(cs.take(k)) as int;
            let ci = children_info(cs, off, at, parent, next);
            let cg = children_greens(cs);
            &&& s + child_size(cs[k]) <= size_of(cs)
            &&& size_of(cs.take(k + 1)) == s + child_size(cs[k])
            &&& ci.subrange(s, s + child_size(cs[k])) == child_info(
                cs[k],
                (off + sum_lens(cs.take(k))) as u32,
                at + s,
                parent,
                next_of(cs, k, at, next),
            )
            &&& cg.subrange(s, s + child_size(cs[k])) == child_greens(cs[k])
        }),
    decreases cs.len(),
{
    let init = cs.drop_last();
    let last_at = at + size_of(init);
    lemma_children_info(init, off, at, parent, last_at as u32);
    lemma_children_greens_len(init);
    lemma_child_info(cs.last(), (off + sum_lens(init)) as u32, last_at, parent, next);
    lemma_child_greens_len(cs.last());
    assert(cs.take(k + 1).drop_last() =~= cs.take(k));
    if k == cs.len() - 1 {
        assert(cs.take(k) =~= init);
        let ci = children_info(cs, off, at, parent, next);
        let a = children_info(init, off, at, parent, last_at as u32);
        let b = child_info(cs.last(), (off + sum_lens(init)) as u32, last_at, parent, next);
        assert(ci == a + b);
        assert(ci.subrange(a.len() as int, (a.len() + b.len()) as int) =~= b);
        let ga = children_greens(init);
        let gb = child_greens(cs.last());
        assert(children_greens(cs).subrange(ga.len() as int, (ga.len() + gb.len()) as int) =~= gb);
    } else {
        lemma_run_child(init, off, at, parent, last_at as u32, k);
        assert(init.take(k) =~= cs.take(k));
        assert(init.take(k + 1) =~= cs.take(k + 1));
        assert(init[k] == cs[k]);
        lemma_size_of_prefix(init, k + 1);
        let s = size_of(cs.take(k)) as int;
        let a = children_info(init, off, at, parent, last_at as u32);
        assert(children_info(cs, off, at, parent, next).subrange(s, s + child_size(cs[k])) =~= a.subrange(
            s,
            s + child_size(cs[k]),
        ));
        assert(children_greens(cs).subrange(s, s + child_size(cs[k])) =~= children_greens(init).subrange(
            s,
            s + child_size(cs[k]),
        ));
        if k + 1 == init.len() {
            assert(init.take(k + 1) =~= init);
        }
    }
}

/// In the records `v` and green nodes `gs` of a listing whose first record
/// has index `at`, the children of the node at `i` stand where they should:
/// its first child right after it, each child after the subtree of the one
/// before, under it, with the green node of that child of its green node,
/// at the offset where the children before it end, followed by the next.
pub open spec fn children_placed(v: Seq<NodeInfo>, gs: Seq<GreenNode>, at: int, i: int) -> bool {
    let cs = gs[i].spec_children();
    &&& v[i].first_child == (if cs.len() > 0 {
        (at + i + 1) as u32
    } else {
        NONE
    })
    &&& forall|k: int|
        0 <= k < cs.len() ==> {
            let c = i + 1 + size_of(cs.take(k));
            &&& c < v.len()
            &&& c < gs.len()
            &&& v[c].parent == at + i
            &&& gs[c] == child_green(#[trigger] cs[k])
            &&& v[c].place.offset == v[i].place.offset + sum_lens(cs.take(k))
            &&& v[c].next_sibling == next_of(cs, k, at + i + 1, NONE)
        }
}

/// Placing a listing after others, or before, keeps its children placed.
proof fn lemma_children_placed_concat(
    a: Seq<NodeInfo>,
    ga: Seq<GreenNode>,
    b: Seq<NodeInfo>,
    gb: Seq<GreenNode>,
    at: int,
    i: int,
    left: bool,
)
    requires
        a.len() == ga.len(),
        b.len() == gb.len(),
        left ==> 0 <= i < a.len() && children_placed(a, ga, at, i),
        !left ==> 0 <= i < b.len() && children_placed(b, gb, at + a.len(), i),
    ensures
        left ==> children_placed(a + b, ga + gb, at, i),
        !left ==> children_placed(a + b, ga + gb, at, a.len() + i),
{
    if left {
        let cs = ga[i].spec_children();
        assert((ga + gb)[i] == ga[i]);
        assert forall|k: int| 0 <= k < cs.len() implies {
            let c = i + 1 + size_of(cs.take(k));
            &&& c < (a + b).len()
            &&& c < (ga + gb).len()
            &&& (a + b)[c].parent == at + i
            &&& (ga + gb)[c] == child_green(#[trigger] cs[k])
            &&& (a + b)[c].place.offset == (a + b)[i].place.offset + sum_lens(cs.take(k))
            &&& (a + b)[c].next_sibling == next_of(cs, k, at + i + 1, NONE)
        } by {
            let c = i + 1 + size_of(cs.take(k));
            assert((a + b)[c] == a[c]);
            assert((ga + gb)[c] == ga[c]);
        }
    } else {
        let j = a.len() + i;
        let cs = gb[i].spec_children();
        assert((ga + gb)[j] == gb[i]);
        assert((a + b)[j] == b[i]);
        assert forall|k: int| 0 <= k < cs.len() implies {
            let c = j + 1 + size_of(cs.take(k));
            &&& c < (a + b).len()
            &&& c < (ga + gb).len()
            &&& (a + b)[c].parent == at + j
            &&& (ga + gb)[c] == child_green(#[trigger] cs[k])
            &&& (a + b)[c].place.offset == (a + b)[j].place.offset + sum_lens(cs.take(k))
            &&& (a + b)[c].next_sibling == next_of(cs, k, at + j + 1, NONE)
        } by {
            let c = i + 1 + size_of(cs.take(k));
            assert((a + b)[a.len() + c] == b[c]);
            assert((ga + gb)[a.len() + c] == gb[c]);
        }
    }
}

/// The first record and green node of a child's listing.
proof fn lemma_child_head(c: GreenChild, off: u32, at: int, parent: u32, next: u32)
    ensures
        child_info(c, off, at, parent, next).len() >= 1,
        child_greens(c).len() >= 1,
        child_info(c, off, at, parent, next)[0].parent == parent,
        child_info(c, off, at, parent, next)[0].next_sibling == next,
        child_info(c, off, at, parent, next)[0].place.offset == off,
        child_greens(c)[0] == child_green(c),
{
}

/// Every node of a listing has its children placed.
proof fn lemma_node_placed(g: GreenNode, off: u32, at: int, parent: u32, next: u32, i: int)
    requires
        g.wf(),
        off + g.len <= u32::MAX,
        0 <= i < g.size(),
        0 <= at,
        at + g.size() <= NONE,
    ensures
        children_placed(flat_info(g, off, at, parent, next), flat_greens(g), at, i),
    decreases g, 1int,
{
    let v = flat_info(g, off, at, parent, next);
    let gs = flat_greens(g);
    lemma_flat_info(g, off, at, parent, next);
    lemma_flat_greens_len(g);
    match g.children {
        GreenChildren::Node { children } => {
            let cs = children@;
            assert(decreases_to!(g => g.children));
            assert(decreases_to!(g.children => children));
            let me = v[0];
            let ci = children_info(cs, off, at + 1, at as u32, NONE);
            let cg = children_greens(cs);
            lemma_children_info(cs, off, at + 1, at as u32, NONE);
            lemma_children_greens_len(cs);
            assert(v == seq![me] + ci);
            assert(gs == seq![g] + cg);
            if i == 0 {
                assert(gs[0] == g);
                assert forall|k: int| 0 <= k < cs.len() implies {
                    let c = 1 + size_of(cs.take(k)) as int;
                    &&& c < v.len()
                    &&& c < gs.len()
                    &&& v[c].parent == at + 0
                    &&& gs[c] == child_green(#[trigger] cs[k])
                    &&& v[c].place.offset == v[0].place.offset + sum_lens(cs.take(k))
                    &&& v[c].next_sibling == next_of(cs, k, at + 0 + 1, NONE)
                } by {
                    let s = size_of(cs.take(k)) as int;
                    lemma_run_child(cs, off, at + 1, at as u32, NONE, k);
                    lemma_child_head(cs[k], (off + sum_lens(cs.take(k))) as u32, at + 1 + s, at as u32, next_of(cs, k, at + 1, NONE));
                    lemma_child_info(cs[k], (off + sum_lens(cs.take(k))) as u32, at + 1 + s, at as u32, next_of(cs, k, at + 1, NONE));
                    lemma_child_greens_len(cs[k]);
                    lemma_sum_lens_prefix(cs, k);
                    lemma_sum_lens_nonneg(cs.take(k));
                    assert(ci[s] == ci.subrange(s, s + child_size(cs[k]))[0]);
                    assert(cg[s] == cg.subrange(s, s + child_size(cs[k]))[0]);
                    assert(v[1 + s] == ci[s]);
                    assert(gs[1 + s] == cg[s]);
                }
            } else {
                lemma_run_placed(cs, off, at + 1, at as u32, NONE, i - 1);
                lemma_children_placed_concat(seq![me], seq![g], ci, cg, at, i - 1, false);
            }
        },
        _ => {
            assert(i == 0);
        },
    }
}

/// Every node of a run's listing has its children placed.
proof fn lemma_run_placed(cs: Seq<GreenChild>, off: u32, at: int, parent: u32, next: u32, i: int)
    requires
        wf_all(cs),
        off + sum_lens(cs) <= u32::MAX,
        0 <= i < size_of(cs),
        0 <= at,
        at + size_of(cs) <= NONE,
    ensures
        children_placed(children_info(cs, off, at, parent, next), children_greens(cs), at, i),
    decreases cs, 0int,
{
    let init = cs.drop_last();
    let last_at = at + size_of(init);
    let a = children_info(init, off, at, parent, last_at as u32);
    let ga = children_greens(init);
    let loff = (off + sum_lens(init)) as u32;
    let b = child_info(cs.last(), loff, last_at, parent, next);
    let gb = child_greens(cs.last());
    lemma_children_info(init, off, at, parent, last_at as u32);
    lemma_children_greens_len(init);
    lemma_child_info(cs.last(), loff, last_at, parent, next);
    lemma_child_greens_len(cs.last());
    lemma_sum_lens_nonneg(init);
    assert(sum_lens(cs) == sum_lens(init) + cs.last().spec_len());
    assert(size_of(cs) == size_of(init) + child_size(cs.last()));
    assert(wf_all(init) && child_wf(cs.last()));
    assert(children_info(cs, off, at, parent, next) == a + b);
    assert(children_greens(cs) == ga + gb);
    if i < size_of(init) {
        lemma_run_placed(init, off, at, parent, last_at as u32, i);
        lemma_children_placed_concat(a, ga, b, gb, at, i, true);
    } else {
        lemma_child_placed(cs.last(), loff, last_at, parent, next, i - size_of(init));
        lemma_children_placed_concat(a, ga, b, gb, at, i - size_of(init), false);
    }
}

/// Every node of a child's listing has its children placed.
proof fn lemma_child_placed(c: GreenChild, off: u32, at: int, parent: u32, next: u32, i: int)
    requires
        child_wf(c),
        off + c.spec_len() <= u32::MAX,
        0 <= i < child_size(c),
        0 <= at,
        at + child_size(c) <= NONE,
    ensures
        children_placed(child_info(c, off, at, parent, next), child_greens(c), at, i),
    decreases c, 0int,
{
    match c {
        GreenChild::Token(t) => {
            assert(i == 0);
            assert(child_greens(c)[0].spec_children() =~= Seq::<GreenChild>::empty());
        },
        GreenChild::Node(n) => {
            lemma_node_placed(n, off, at, parent, next, i);
        },
    }
}

/// A child stands for a subtree of as many nodes as its size.
proof fn lemma_child_green_size(c: GreenChild)
    ensures
        child_green(c).size() == child_size(c),
        child_size(c) >= 1,
{
    match c {
        GreenChild::Token(_) => {},
        GreenChild::Node(n) => lemma_size_pos(n),
    }
}

/// In a listing whose nodes all have their children placed, the pre-order
/// walk from a node visits exactly the indices of its subtree, in order.
#[verifier::rlimit(50)]
proof fn lemma_preorder_subtree(v: Seq<NodeInfo>, gs: Seq<GreenNode>, i: int)
    requires
        v.len() == gs.len(),
        v.len() < NONE,
        forall|m: int| 0 <= m < v.len() ==> #[trigger] children_placed(v, gs, 0, m),
        0 <= i < v.len(),
    ensures
        preorder(v, i) == index_range(i, i + gs[i].size()),
    decreases 2 * (v.len() - i) + 1,
{
    let cs = gs[i].spec_children();
    assert(children_placed(v, gs, 0, i));
    if cs.len() > 0 {
        assert(cs.take(0) =~= Seq::<GreenChild>::empty());
        assert(gs[i].children is Node);
        lemma_sibling_subtrees(v, gs, i, 0);
        assert(gs[i].size() == 1 + size_of(cs));
        assert(v[i].first_child == (i + 1) as u32);
        assert(preorder(v, i) == seq![i] + sibling_preorder(v, i + 1));
        assert(index_range(i, i + gs[i].size()) =~= seq![i] + index_range(i + 1, i + 1 + size_of(cs)));
    } else {
        assert(gs[i].size() == 1) by {
            if gs[i].children is Node {
                assert(size_of(cs) == 0);
            }
        }
        assert(v[i].first_child == NONE);
        assert(preorder(v, i) == seq![i]);
        assert(preorder(v, i) =~= index_range(i, i + gs[i].size()));
    }
}

/// The pre-order walk from child `k` of the node at `i` on visits the
/// subtrees of that child and the ones after it: the indices up to the end
/// of the node's subtree.
proof fn lemma_sibling_subtrees(v: Seq<NodeInfo>, gs: Seq<GreenNode>, i: int, k: int)
    requires
        v.len() == gs.len(),
        v.len() < NONE,
        forall|m: int| 0 <= m < v.len() ==> #[trigger] children_placed(v, gs, 0, m),
        0 <= i < v.len(),
        gs[i].children is Node,
        0 <= k < gs[i].spec_children().len(),
    ensures
        ({
            let cs = gs[i].spec_children();
            let c = i + 1 + size_of(cs.take(k));
            &&& c < v.len()
            &&& sibling_preorder(v, c) == index_range(c, i + 1 + size_of(cs))
        }),
    decreases 2 * (v.len() - (i + 1 + size_of(gs[i].spec_children().take(k)))) + 2,
{
    let cs = gs[i].spec_children();
    let c = i + 1 + size_of(cs.take(k));
    assert(children_placed(v, gs, 0, i));
    assert(c < v.len() && gs[c] == child_green(cs[k]));
    lemma_child_green_size(cs[k]);
    assert(cs.take(k + 1).drop_last() =~= cs.take(k));
    assert(cs.take(k + 1).last() == cs[k]);
    let c2 = i + 1 + size_of(cs.take(k + 1));
    assert(c2 == c + child_size(cs[k]));
    lemma_preorder_subtree(v, gs, c);
    let ns = v[c].next_sibling as int;
    if k + 1 < cs.len() {
        assert(c2 < v.len() && gs[c2] == child_green(cs[k + 1]));
        assert(next_of(cs, k, 0 + i + 1, NONE) == c2 as u32);
        assert(ns == c2);
        lemma_sibling_subtrees(v, gs, i, k + 1);
        assert(gs[c].size() == child_size(cs[k]));
        assert(preorder(v, c) == index_range(c, c2));
        assert(sibling_preorder(v, c) == preorder(v, c) + sibling_preorder(v, c2));
        lemma_size_of_prefix(cs, k + 1);
        assert(index_range(c, c2) + index_range(c2, i + 1 + size_of(cs)) =~= index_range(c, i + 1 + size_of(cs)));
    } else {
        assert(cs.take(k + 1) =~= cs);
        assert(ns == NONE);
        assert(sibling_preorder(v, c) =~= index_range(c, i + 1 + size_of(cs)));
    }
}

} // verus!
