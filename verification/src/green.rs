//! Green tree — immutable, position-independent syntax tree.
//!
//! The green tree stores the raw structure of parsed source code without
//! absolute positions. It is constructed via [`GreenBuilder`] during parsing.
//!
//! # Trivia
//!
//! Whitespace and comments between tokens are stored as byte-length fields
//! (`leading_trivia`, `trailing_trivia`) on [`GreenToken`]. The actual text
//! is recovered from the source string using these lengths and the token's
//! position in the red tree.

#![allow(missing_docs)]

use vstd::prelude::*;

use crate::syntax::SyntaxKind;

verus! {

// =============================================================================
// GreenToken
// =============================================================================

/// A leaf token in the green tree.
///
/// Stores the token's kind, its text length, and the lengths of surrounding
/// trivia (whitespace/comments). Tokens are position-independent — absolute
/// positions are computed by the red tree layer.
#[derive(Debug, Clone, Copy, PartialEq, Eq, Structural)]
pub struct GreenToken {
    /// The kind of this token.
    pub kind: SyntaxKind,
    /// Length of the token's text in bytes (not including trivia).
    pub len: u32,
    /// Length of whitespace/comments before this token.
    pub leading_trivia: u32,
    /// Length of whitespace/comments after this token.
    pub trailing_trivia: u32,
}

impl GreenToken {
    /// The number of source bytes the token covers, trivia included.
    pub open spec fn spec_total_len(self) -> int {
        self.leading_trivia + self.len + self.trailing_trivia
    }

    /// Total length including trivia.
    pub fn total_len(&self) -> (r: u32)
        requires
            self.spec_total_len() <= u32::MAX,
        ensures
            r == self.spec_total_len(),
    {
        self.leading_trivia + self.len + self.trailing_trivia
    }
}

// =============================================================================
// GreenNode
// =============================================================================

/// A child of a [`GreenNode`] — either a token or another node.
#[derive(Debug, PartialEq, Eq)]
pub enum GreenChild {
    Token(GreenToken),
    Node(GreenNode),
}

/// An immutable, position-independent node in the green tree.
///
/// Interior nodes have children; leaf tokens use the [`GreenToken`] type
/// wrapped in [`GreenChild::Token`].
#[derive(Debug, PartialEq, Eq)]
pub struct GreenNode {
    pub kind: SyntaxKind,
    /// Total text length of this node and all its descendants, including trivia.
    pub len: u32,
    /// What the node holds: nothing, a single token, or child elements.
    pub children: GreenChildren,
}

/// The payload of a [`GreenNode`].
#[derive(Debug, PartialEq, Eq)]
pub enum GreenChildren {
    /// No children (zero-width placeholder, e.g. empty statement).
    Empty,
    /// Leaf token node.
    Token(GreenToken),
    /// Internal node with children.
    Node { children: Vec<GreenChild> },
}

impl GreenChild {
    /// Length in bytes that this child covers.
    pub open spec fn spec_len(self) -> int {
        match self {
            GreenChild::Token(t) => t.spec_total_len(),
            GreenChild::Node(n) => n.len as int,
        }
    }

    /// Total text length of this child.
    pub fn len(&self) -> (r: u32)
        requires
            self.spec_len() <= u32::MAX,
        ensures
            r == self.spec_len(),
    {
        match self {
            GreenChild::Token(t) => t.total_len(),
            GreenChild::Node(n) => n.len,
        }
    }

    /// Returns `true` if this child is a token.
    pub fn is_token(&self) -> (r: bool)
        ensures
            r == (self is Token),
    {
        matches!(self, GreenChild::Token(_))
    }

    /// Returns `true` if this child is a node.
    pub fn is_node(&self) -> (r: bool)
        ensures
            r == (self is Node),
    {
        matches!(self, GreenChild::Node(_))
    }
}

/// Sum of the lengths of a run of children.
pub open spec fn sum_lens(cs: Seq<GreenChild>) -> int
    decreases cs.len(),
{
    if cs.len() == 0 {
        0
    } else {
        sum_lens(cs.drop_last()) + cs.last().spec_len()
    }
}

/// Sum of the total lengths of a run of tokens.
pub open spec fn tokens_total(ts: Seq<GreenToken>) -> int
    decreases ts.len(),
{
    if ts.len() == 0 {
        0
    } else {
        tokens_total(ts.drop_last()) + ts.last().spec_total_len()
    }
}

impl GreenNode {
    /// The child elements of an internal node (empty for tokens and empty nodes).
    pub open spec fn spec_children(self) -> Seq<GreenChild> {
        match self.children {
            GreenChildren::Node { children } => children@,
            _ => Seq::empty(),
        }
    }

    /// The token of a leaf node.
    pub open spec fn spec_token(self) -> Option<GreenToken> {
        match self.children {
            GreenChildren::Token(t) => Some(t),
            _ => None,
        }
    }

    /// The tokens of this subtree, left to right.
    pub open spec fn leaves(self) -> Seq<GreenToken>
        decreases self,
    {
        match self.children {
            GreenChildren::Empty => Seq::empty(),
            GreenChildren::Token(t) => seq![t],
            GreenChildren::Node { children } => leaves_of(children@),
        }
    }

    /// Every length field agrees with what lies below it, and a token node
    /// has the kind of its token.
    pub open spec fn wf(self) -> bool
        decreases self,
    {
        match self.children {
            GreenChildren::Empty => self.len == 0,
            GreenChildren::Token(t) => self.len == t.spec_total_len() && self.kind == t.kind,
            GreenChildren::Node { children } => self.len == sum_lens(children@) && wf_all(children@),
        }
    }

    /// Every interior node of this subtree has a child (a node without
    /// children is [`GreenChildren::Empty`]), and a token child stands as
    /// [`GreenChild::Token`], not as a node.
    pub open spec fn compact(self) -> bool
        decreases self,
    {
        match self.children {
            GreenChildren::Node { children } => children@.len() > 0 && compact_all(children@),
            _ => true,
        }
    }

    /// Number of nodes of the red tree built over this subtree (itself included).
    pub open spec fn size(self) -> nat
        decreases self,
    {
        match self.children {
            GreenChildren::Node { children } => 1 + size_of(children@),
            _ => 1,
        }
    }

    /// Create a new internal node with the given children.
    pub fn new(kind: SyntaxKind, children: Vec<GreenChild>) -> (r: Self)
        requires
            sum_lens(children@) <= u32::MAX,
        ensures
            r.kind == kind,
            r.len == sum_lens(children@),
            r.children == (if children@.len() == 0 {
                GreenChildren::Empty
            } else {
                GreenChildren::Node { children }
            }),
    {
        let mut len: u32 = 0;
        let mut i: usize = 0;
        while i < children.len()
            invariant
                0 <= i <= children@.len(),
                len == sum_lens(children@.take(i as int)),
                sum_lens(children@) <= u32::MAX,
            decreases children@.len() - i,
        {
            proof {
                lemma_sum_lens_take_succ(children@, i as int);
                lemma_sum_lens_prefix(children@, i as int + 1);
                lemma_sum_lens_nonneg(children@.take(i as int));
            }
            let c = children[i].len();
            len = len + c;
            i = i + 1;
        }
        proof {
            assert(children@.take(i as int) =~= children@);
        }
        if children.len() == 0 {
            GreenNode { kind, len, children: GreenChildren::Empty }
        } else {
            GreenNode { kind, len, children: GreenChildren::Node { children } }
        }
    }

    /// Create a new token node.
    pub fn token(kind: SyntaxKind, len: u32, leading_trivia: u32, trailing_trivia: u32) -> (r: Self)
        requires
            leading_trivia + len + trailing_trivia <= u32::MAX,
        ensures
            r.kind == kind,
            r.len == leading_trivia + len + trailing_trivia,
            r.children == GreenChildren::Token(GreenToken { kind, len, leading_trivia, trailing_trivia }),
            r.wf(),
    {
        let token = GreenToken { kind, len, leading_trivia, trailing_trivia };
        let total = token.total_len();
        GreenNode { kind, len: total, children: GreenChildren::Token(token) }
    }

    /// Create an empty node (zero-width).
    pub fn empty(kind: SyntaxKind) -> (r: Self)
        ensures
            r.kind == kind,
            r.len == 0,
            r.children == GreenChildren::Empty,
    {
        GreenNode { kind, len: 0, children: GreenChildren::Empty }
    }

    /// Returns a cursor over the children of this node.
    pub fn children(&self) -> (r: GreenChildrenIter<'_>)
        ensures
            r.node == self,
            r.idx == 0,
    {
        GreenChildrenIter { node: self, idx: 0 }
    }

    /// Returns the children as a slice, if this is an internal node.
    pub fn children_slice(&self) -> (r: Option<&[GreenChild]>)
        ensures
            r is Some <==> self.children is Node,
            r matches Some(s) ==> s@ == self.spec_children(),
    {
        match &self.children {
            GreenChildren::Node { children } => Some(children.as_slice()),
            _ => None,
        }
    }

    /// Returns the token data, if this is a token node.
    pub fn as_token(&self) -> (r: Option<&GreenToken>)
        ensures
            r is Some <==> self.spec_token() is Some,
            r matches Some(t) ==> Some(*t) == self.spec_token(),
    {
        match &self.children {
            GreenChildren::Token(t) => Some(t),
            _ => None,
        }
    }

    /// Returns `true` if this node is a leaf token.
    pub fn is_token(&self) -> (r: bool)
        ensures
            r == (self.children is Token),
    {
        matches!(self.children, GreenChildren::Token(_))
    }

    /// Returns `true` if this node has no children.
    pub fn is_empty(&self) -> (r: bool)
        ensures
            r == (self.children is Empty),
    {
        matches!(self.children, GreenChildren::Empty)
    }

    /// Returns the number of direct children (0 for token/empty nodes).
    pub fn child_count(&self) -> (r: usize)
        ensures
            r == self.spec_children().len(),
    {
        match &self.children {
            GreenChildren::Empty | GreenChildren::Token(_) => 0,
            GreenChildren::Node { children } => children.len(),
        }
    }

    /// A copy of this node: same kind, length and payload shape, with the
    /// children copied one by one.
    pub fn deep_clone(&self) -> (r: GreenNode)
        ensures
            copy_of(*self, r),
        decreases self,
    {
        match &self.children {
            GreenChildren::Empty => GreenNode { kind: self.kind, len: self.len, children: GreenChildren::Empty },
            GreenChildren::Token(t) => GreenNode { kind: self.kind, len: self.len, children: GreenChildren::Token(*t) },
            GreenChildren::Node { children } => {
                let mut out: Vec<GreenChild> = Vec::new();
                let mut i: usize = 0;
                while i < children.len()
                    invariant
                        0 <= i <= children@.len(),
                        out@.len() == i,
                        copies_of(children@.take(i as int), out@),
                        self.children is Node,
                        self.children->children == *children,
                    decreases children@.len() - i,
                {
                    let c = match &children[i] {
                        GreenChild::Token(t) => GreenChild::Token(*t),
                        GreenChild::Node(n) => {
                            proof {
                                assert(decreases_to!(*self => self.children));
                                assert(self.children->children == *children);
                                assert(decreases_to!(self.children => self.children->children));
                                assert(decreases_to!(*children => children[i as int]));
                                assert(decreases_to!(children[i as int] => *n));
                            }
                            let m = n.deep_clone();
                            assert(child_copy_of(children@[i as int], GreenChild::Node(m)));
                            GreenChild::Node(m)
                        },
                    };
                    assert(child_copy_of(children@[i as int], c));
                    let ghost done = out@;
                    out.push(c);
                    proof {
                        assert(children@.take(i + 1).drop_last() =~= children@.take(i as int));
                        assert(out@.drop_last() =~= done);
                        assert(children@.take(i + 1).last() == children@[i as int]);
                        assert(copies_of(children@.take(i + 1), out@));
                    }
                    i = i + 1;
                }
                proof {
                    assert(children@.take(i as int) =~= children@);
                }
                GreenNode { kind: self.kind, len: self.len, children: GreenChildren::Node { children: out } }
            },
        }
    }
}

/// `b` is a copy of `a`: same kind and length, and a copy of its token or
/// of each of its children.
pub open spec fn copy_of(a: GreenNode, b: GreenNode) -> bool
    decreases a,
{
    &&& a.kind == b.kind
    &&& a.len == b.len
    &&& match a.children {
        GreenChildren::Empty => b.children is Empty,
        GreenChildren::Token(t) => b.spec_token() == Some(t),
        GreenChildren::Node { children } => b.children is Node && copies_of(children@, b.spec_children()),
    }
}

/// `b` is a copy of the run `a`, child by child.
pub open spec fn copies_of(a: Seq<GreenChild>, b: Seq<GreenChild>) -> bool
    decreases a,
{
    &&& a.len() == b.len()
    &&& (a.len() == 0 || (copies_of(a.drop_last(), b.drop_last()) && child_copy_of(a.last(), b.last())))
}

/// `b` is a copy of the child `a`.
pub open spec fn child_copy_of(a: GreenChild, b: GreenChild) -> bool
    decreases a,
{
    match a {
        GreenChild::Token(t) => b == GreenChild::Token(t),
        GreenChild::Node(n) => b is Node && copy_of(n, b->Node_0),
    }
}

/// The tokens of a run of children, left to right.
pub open spec fn leaves_of(cs: Seq<GreenChild>) -> Seq<GreenToken>
    decreases cs,
{
    if cs.len() == 0 {
        Seq::empty()
    } else {
        leaves_of(cs.drop_last()) + child_leaves(cs.last())
    }
}

/// The tokens of a single child.
pub open spec fn child_leaves(c: GreenChild) -> Seq<GreenToken>
    decreases c,
{
    match c {
        GreenChild::Token(t) => seq![t],
        GreenChild::Node(n) => n.leaves(),
    }
}

/// Every child of the run is well formed.
pub open spec fn wf_all(cs: Seq<GreenChild>) -> bool
    decreases cs,
{
    if cs.len() == 0 {
        true
    } else {
        wf_all(cs.drop_last()) && child_wf(cs.last())
    }
}

/// Every child of a run is compact (see [`GreenNode::compact`]).
pub open spec fn compact_all(cs: Seq<GreenChild>) -> bool
    decreases cs,
{
    if cs.len() == 0 {
        true
    } else {
        compact_all(cs.drop_last()) && child_compact(cs.last())
    }
}

/// A child is compact: a token, or a compact node that is not a token
/// node.
pub open spec fn child_compact(c: GreenChild) -> bool
    decreases c,
{
    match c {
        GreenChild::Token(_) => true,
        GreenChild::Node(n) => !(n.children is Token) && n.compact(),
    }
}

/// A child is well formed.
pub open spec fn child_wf(c: GreenChild) -> bool
    decreases c,
{
    match c {
        GreenChild::Token(_) => true,
        GreenChild::Node(n) => n.wf(),
    }
}

/// Red-tree node count of a run of children.
pub open spec fn size_of(cs: Seq<GreenChild>) -> nat
    decreases cs,
{
    if cs.len() == 0 {
        0
    } else {
        size_of(cs.drop_last()) + child_size(cs.last())
    }
}

/// Red-tree node count of one child.
pub open spec fn child_size(c: GreenChild) -> nat
    decreases c,
{
    match c {
        GreenChild::Token(_) => 1,
        GreenChild::Node(n) => n.size(),
    }
}

/// Each member of a well-formed run is well formed.
pub proof fn lemma_wf_all_index(cs: Seq<GreenChild>, j: int)
    requires
        wf_all(cs),
        0 <= j < cs.len(),
    ensures
        child_wf(cs[j]),
    decreases cs.len(),
{
    if j < cs.len() - 1 {
        lemma_wf_all_index(cs.drop_last(), j);
        assert(cs.drop_last()[j] == cs[j]);
    }
}

/// Size of a prefix of a run of children never exceeds the whole.
pub proof fn lemma_size_of_prefix(cs: Seq<GreenChild>, j: int)
    requires
        0 <= j <= cs.len(),
    ensures
        size_of(cs.take(j)) <= size_of(cs),
    decreases cs.len() - j,
{
    if j < cs.len() {
        lemma_size_of_prefix(cs, j + 1);
        assert(cs.take(j + 1).drop_last() =~= cs.take(j));
    } else {
        assert(cs.take(j) =~= cs);
    }
}

pub proof fn lemma_sum_lens_nonneg(cs: Seq<GreenChild>)
    ensures
        sum_lens(cs) >= 0,
    decreases cs.len(),
{
    if cs.len() > 0 {
        lemma_sum_lens_nonneg(cs.drop_last());
    }
}

pub proof fn lemma_sum_lens_take_succ(cs: Seq<GreenChild>, i: int)
    requires
        0 <= i < cs.len(),
    ensures
        sum_lens(cs.take(i + 1)) == sum_lens(cs.take(i)) + cs[i].spec_len(),
{
    assert(cs.take(i + 1).drop_last() =~= cs.take(i));
}

pub proof fn lemma_sum_lens_prefix(cs: Seq<GreenChild>, i: int)
    requires
        0 <= i <= cs.len(),
    ensures
        sum_lens(cs.take(i)) <= sum_lens(cs),
    decreases cs.len() - i,
{
    if i < cs.len() {
        lemma_sum_lens_prefix(cs, i + 1);
        lemma_sum_lens_take_succ(cs, i);
    } else {
        assert(cs.take(i) =~= cs);
    }
}

impl Clone for GreenNode {
    fn clone(&self) -> (r: Self)
        ensures
            copy_of(*self, r),
    {
        self.deep_clone()
    }
}

impl Clone for GreenChild {
    fn clone(&self) -> (r: Self)
        ensures
            child_copy_of(*self, r),
    {
        match self {
            GreenChild::Token(t) => GreenChild::Token(*t),
            GreenChild::Node(n) => GreenChild::Node(n.deep_clone()),
        }
    }
}

/// Iterator over the children of a [`GreenNode`].
pub struct GreenChildrenIter<'a> {
    pub node: &'a GreenNode,
    pub idx: usize,
}

impl<'a> GreenChildrenIter<'a> {
    /// The next child, if any is left.
    pub fn next(&mut self) -> (r: Option<&'a GreenChild>)
        ensures
            final(self).node == old(self).node,
            old(self).idx < old(self).node.spec_children().len() ==> {
                &&& r matches Some(c) && *c == old(self).node.spec_children()[old(self).idx as int]
                &&& final(self).idx == old(self).idx + 1
            },
            old(self).idx >= old(self).node.spec_children().len() ==> r is None && final(self).idx
                == old(self).idx,
    {
        let node: &'a GreenNode = self.node;
        match &node.children {
            GreenChildren::Node { children } => {
                if self.idx >= children.len() {
                    return None;
                }
                let child = &children[self.idx];
                self.idx = self.idx + 1;
                Some(child)
            },
            _ => None,
        }
    }

    /// The number of children not yet returned.
    pub fn len(&self) -> (r: usize)
        ensures
            r == if self.idx <= self.node.spec_children().len() {
                self.node.spec_children().len() - self.idx
            } else {
                0
            },
    {
        let node: &'a GreenNode = self.node;
        match &node.children {
            GreenChildren::Node { children } => {
                if self.idx <= children.len() {
                    children.len() - self.idx
                } else {
                    0
                }
            },
            _ => 0,
        }
    }
}

// =============================================================================
// GreenBuilder
// =============================================================================

/// An event in the green tree construction stream.
///
/// Events are emitted by the parser during parsing and then processed by
/// [`GreenBuilder::build`] into a [`GreenNode`] tree.
#[derive(Debug, Clone, Copy)]
pub enum GreenEvent {
    /// Start a new interior node with the given kind.
    StartNode { kind: SyntaxKind },
    /// Finish the current interior node.
    FinishNode,
    /// Add a token leaf at the given absolute source byte offset.
    /// Leading trivia is computed during [`GreenBuilder::build`] from the gap
    /// between adjacent tokens.
    Token { kind: SyntaxKind, len: u32, start: u32 },
    /// A marker placed before a parser to enable retroactive wrapping.
    /// The `wrap_node` method replaces the most recent Mark with a StartNode
    /// and appends a FinishNode at the current position.
    Mark,
}

/// One step of the outline of a tree, in pre-order: a node opens, a token
/// stands, a node closes.
pub enum Outline {
    Open(SyntaxKind),
    Leaf(SyntaxKind),
    Close,
}

/// The outline of a node: its kind opens, its children's outlines follow,
/// and it closes; a token node is a single leaf.
pub open spec fn node_outline(g: GreenNode) -> Seq<Outline>
    decreases g,
{
    match g.children {
        GreenChildren::Empty => seq![Outline::Open(g.kind), Outline::Close],
        GreenChildren::Token(t) => seq![Outline::Leaf(t.kind)],
        GreenChildren::Node { children } => seq![Outline::Open(g.kind)] + children_outline(children@)
            + seq![Outline::Close],
    }
}

/// The outlines of a run of children, one after another.
pub open spec fn children_outline(cs: Seq<GreenChild>) -> Seq<Outline>
    decreases cs,
{
    if cs.len() == 0 {
        Seq::empty()
    } else {
        children_outline(cs.drop_last()) + child_outline(cs.last())
    }
}

/// The outline of a single child.
pub open spec fn child_outline(c: GreenChild) -> Seq<Outline>
    decreases c,
{
    match c {
        GreenChild::Token(t) => seq![Outline::Leaf(t.kind)],
        GreenChild::Node(n) => node_outline(n),
    }
}

/// The outline that an event adds: a start opens, a token stands, a finish
/// closes; a mark adds nothing.
pub open spec fn event_outline(e: GreenEvent) -> Seq<Outline> {
    match e {
        GreenEvent::StartNode { kind } => seq![Outline::Open(kind)],
        GreenEvent::FinishNode => seq![Outline::Close],
        GreenEvent::Token { kind, .. } => seq![Outline::Leaf(kind)],
        GreenEvent::Mark => Seq::empty(),
    }
}

/// The outline that a run of events describes.
pub open spec fn events_outline(es: Seq<GreenEvent>) -> Seq<Outline>
    decreases es.len(),
{
    if es.len() == 0 {
        Seq::empty()
    } else {
        events_outline(es.drop_last()) + event_outline(es.last())
    }
}

/// How an outline step changes the number of open nodes.
pub open spec fn outline_delta(o: Outline) -> int {
    match o {
        Outline::Open(_) => 1,
        Outline::Close => -1,
        Outline::Leaf(_) => 0,
    }
}

/// Number of nodes left open after the steps `os`.
pub open spec fn outline_depth(os: Seq<Outline>) -> int
    decreases os.len(),
{
    if os.len() == 0 {
        0
    } else {
        outline_depth(os.drop_last()) + outline_delta(os.last())
    }
}

/// A step that may stand directly in the root: an external declaration or
/// an error node opens, or the root closes.
pub open spec fn top_step(o: Outline) -> bool {
    match o {
        Outline::Open(kind) => kind == SyntaxKind::ExternalDeclaration || kind == SyntaxKind::Error,
        Outline::Close => true,
        Outline::Leaf(_) => false,
    }
}

/// Every step after the first taken while only the root is open is a
/// [`top_step`].
pub open spec fn outline_top_ok(os: Seq<Outline>) -> bool
    decreases os.len(),
{
    os.len() <= 1 || (outline_top_ok(os.drop_last()) && (outline_depth(os.drop_last()) == 1 ==> top_step(
        os.last(),
    )))
}

/// What stands directly in `g` are external declarations and error nodes.
pub open spec fn declarations_at_top(g: GreenNode) -> bool {
    forall|i: int|
        0 <= i < g.spec_children().len() ==> {
            let c = #[trigger] g.spec_children()[i];
            &&& c is Node
            &&& c->Node_0.spec_token() is None
            &&& (c->Node_0.kind == SyntaxKind::ExternalDeclaration || c->Node_0.kind == SyntaxKind::Error)
        }
}

proof fn lemma_outline_depth_concat(a: Seq<Outline>, b: Seq<Outline>)
    ensures
        outline_depth(a + b) == outline_depth(a) + outline_depth(b),
    decreases b.len(),
{
    if b.len() == 0 {
        assert(a + b =~= a);
    } else {
        assert((a + b).drop_last() =~= a + b.drop_last());
        assert((a + b).last() == b.last());
        lemma_outline_depth_concat(a, b.drop_last());
    }
}

/// The outline of a node closes every node it opens, and starts with its
/// own step.
proof fn lemma_node_outline_closed(g: GreenNode)
    ensures
        outline_depth(node_outline(g)) == 0,
        node_outline(g).len() >= 1,
        node_outline(g)[0] == match g.children {
            GreenChildren::Token(t) => Outline::Leaf(t.kind),
            _ => Outline::Open(g.kind),
        },
    decreases g,
{
    reveal_with_fuel(outline_depth, 3);
    match g.children {
        GreenChildren::Node { children } => {
            assert(decreases_to!(g => g.children));
            assert(decreases_to!(g.children => children));
            lemma_children_outline_closed(children@);
            let co = children_outline(children@);
            lemma_outline_depth_concat(seq![Outline::Open(g.kind)], co);
            lemma_outline_depth_concat(seq![Outline::Open(g.kind)] + co, seq![Outline::Close]);
            assert(seq![Outline::Open(g.kind)].drop_last() =~= Seq::<Outline>::empty());
            assert(seq![Outline::Close].drop_last() =~= Seq::<Outline>::empty());
        },
        _ => {},
    }
}

proof fn lemma_children_outline_closed(cs: Seq<GreenChild>)
    ensures
        outline_depth(children_outline(cs)) == 0,
    decreases cs,
{
    if cs.len() > 0 {
        lemma_children_outline_closed(cs.drop_last());
        lemma_child_outline_closed(cs.last());
        lemma_outline_depth_concat(children_outline(cs.drop_last()), child_outline(cs.last()));
    }
}

proof fn lemma_child_outline_closed(c: GreenChild)
    ensures
        outline_depth(child_outline(c)) == 0,
        child_outline(c).len() >= 1,
        child_outline(c)[0] == match c {
            GreenChild::Token(t) => Outline::Leaf(t.kind),
            GreenChild::Node(n) => match n.children {
                GreenChildren::Token(t) => Outline::Leaf(t.kind),
                _ => Outline::Open(n.kind),
            },
        },
    decreases c,
{
    reveal_with_fuel(outline_depth, 2);
    match c {
        GreenChild::Token(t) => {
            assert(seq![Outline::Leaf(t.kind)].drop_last() =~= Seq::<Outline>::empty());
        },
        GreenChild::Node(n) => {
            lemma_node_outline_closed(n);
        },
    }
}

proof fn lemma_children_outline_concat(a: Seq<GreenChild>, b: Seq<GreenChild>)
    ensures
        children_outline(a + b) == children_outline(a) + children_outline(b),
    decreases b.len(),
{
    if b.len() == 0 {
        assert(a + b =~= a);
        assert(children_outline(a) + Seq::<Outline>::empty() =~= children_outline(a));
    } else {
        assert((a + b).drop_last() =~= a + b.drop_last());
        assert((a + b).last() == b.last());
        lemma_children_outline_concat(a, b.drop_last());
        assert(children_outline(a) + children_outline(b.drop_last()) + child_outline(b.last()) =~= children_outline(a)
            + (children_outline(b.drop_last()) + child_outline(b.last())));
    }
}

/// No prefix of `os` closes more nodes than it opens.
pub open spec fn prefixes_nonneg(os: Seq<Outline>) -> bool {
    forall|j: int| 0 <= j <= os.len() ==> outline_depth(#[trigger] os.take(j)) >= 0
}

/// `os` is the outline of a single child: it closes what it opens, and
/// every proper nonempty prefix of it leaves a node open.
pub open spec fn unit_outline(os: Seq<Outline>) -> bool {
    &&& os.len() >= 1
    &&& outline_depth(os) == 0
    &&& forall|j: int| 1 <= j < os.len() ==> outline_depth(#[trigger] os.take(j)) >= 1
}

/// The number of leaves an outline shows.
pub open spec fn leaf_count(os: Seq<Outline>) -> nat
    decreases os.len(),
{
    if os.len() == 0 {
        0
    } else {
        leaf_count(os.drop_last()) + if os.last() is Leaf {
            1nat
        } else {
            0nat
        }
    }
}

proof fn lemma_leaf_count_concat(a: Seq<Outline>, b: Seq<Outline>)
    ensures
        leaf_count(a + b) == leaf_count(a) + leaf_count(b),
    decreases b.len(),
{
    if b.len() == 0 {
        assert(a + b =~= a);
    } else {
        assert((a + b).drop_last() =~= a + b.drop_last());
        assert((a + b).last() == b.last());
        lemma_leaf_count_concat(a, b.drop_last());
    }
}

proof fn lemma_node_leaf_count(g: GreenNode)
    ensures
        g.leaves().len() == leaf_count(node_outline(g)),
    decreases g,
{
    reveal_with_fuel(leaf_count, 3);
    match g.children {
        GreenChildren::Node { children } => {
            assert(decreases_to!(g => g.children));
            assert(decreases_to!(g.children => children));
            lemma_children_leaf_count(children@);
            let co = children_outline(children@);
            lemma_leaf_count_concat(seq![Outline::Open(g.kind)], co);
            lemma_leaf_count_concat(seq![Outline::Open(g.kind)] + co, seq![Outline::Close]);
            assert(seq![Outline::Open(g.kind)].drop_last() =~= Seq::<Outline>::empty());
            assert(seq![Outline::Close].drop_last() =~= Seq::<Outline>::empty());
        },
        GreenChildren::Token(t) => {
            assert(seq![Outline::Leaf(t.kind)].drop_last() =~= Seq::<Outline>::empty());
        },
        GreenChildren::Empty => {
            let os = seq![Outline::Open(g.kind), Outline::Close];
            assert(os.drop_last() =~= seq![Outline::Open(g.kind)]);
            assert(os.drop_last().drop_last() =~= Seq::<Outline>::empty());
        },
    }
}

proof fn lemma_children_leaf_count(cs: Seq<GreenChild>)
    ensures
        leaves_of(cs).len() == leaf_count(children_outline(cs)),
    decreases cs,
{
    if cs.len() > 0 {
        lemma_children_leaf_count(cs.drop_last());
        lemma_child_leaf_count(cs.last());
        lemma_leaf_count_concat(children_outline(cs.drop_last()), child_outline(cs.last()));
    }
}

proof fn lemma_child_leaf_count(c: GreenChild)
    ensures
        child_leaves(c).len() == leaf_count(child_outline(c)),
    decreases c,
{
    reveal_with_fuel(leaf_count, 2);
    match c {
        GreenChild::Token(t) => {
            assert(seq![Outline::Leaf(t.kind)].drop_last() =~= Seq::<Outline>::empty());
        },
        GreenChild::Node(n) => {
            lemma_node_leaf_count(n);
        },
    }
}

/// The depth of a prefix of `a + b` that reaches into `b`.
proof fn lemma_depth_take_concat(a: Seq<Outline>, b: Seq<Outline>, j: int)
    requires
        a.len() <= j <= a.len() + b.len(),
    ensures
        outline_depth((a + b).take(j)) == outline_depth(a) + outline_depth(b.take(j - a.len())),
{
    assert((a + b).take(j) =~= a + b.take(j - a.len()));
    lemma_outline_depth_concat(a, b.take(j - a.len()));
}

proof fn lemma_children_nonneg(cs: Seq<GreenChild>)
    ensures
        prefixes_nonneg(children_outline(cs)),
    decreases cs,
{
    let co = children_outline(cs);
    if cs.len() == 0 {
        assert forall|j: int| 0 <= j <= co.len() implies outline_depth(#[trigger] co.take(j)) >= 0 by {
            assert(co.take(j) =~= Seq::<Outline>::empty());
        }
    } else {
        let init = children_outline(cs.drop_last());
        let o = child_outline(cs.last());
        lemma_children_nonneg(cs.drop_last());
        lemma_child_unit(cs.last());
        lemma_children_outline_closed(cs.drop_last());
        assert(co == init + o);
        assert forall|j: int| 0 <= j <= co.len() implies outline_depth(#[trigger] co.take(j)) >= 0 by {
            if j <= init.len() {
                assert(co.take(j) =~= init.take(j));
            } else {
                lemma_depth_take_concat(init, o, j);
                if j - init.len() == o.len() {
                    assert(o.take(j - init.len()) =~= o);
                }
            }
        }
    }
}

proof fn lemma_node_unit(g: GreenNode)
    ensures
        unit_outline(node_outline(g)),
    decreases g,
{
    lemma_node_outline_closed(g);
    let os = node_outline(g);
    match g.children {
        GreenChildren::Node { children } => {
            assert(decreases_to!(g => g.children));
            assert(decreases_to!(g.children => children));
            lemma_children_nonneg(children@);
            let co = children_outline(children@);
            let head = seq![Outline::Open(g.kind)];
            assert(outline_depth(head) == 1) by {
                reveal_with_fuel(outline_depth, 2);
                assert(head.drop_last() =~= Seq::<Outline>::empty());
            }
            assert forall|j: int| 1 <= j < os.len() implies outline_depth(#[trigger] os.take(j)) >= 1 by {
                assert(os.take(j) =~= head + co.take(j - 1));
                lemma_outline_depth_concat(head, co.take(j - 1));
            }
        },
        GreenChildren::Empty => {
            assert forall|j: int| 1 <= j < os.len() implies outline_depth(#[trigger] os.take(j)) >= 1 by {
                assert(os.take(1) =~= seq![Outline::Open(g.kind)]);
                assert(os.take(1).drop_last() =~= Seq::<Outline>::empty());
            }
        },
        GreenChildren::Token(_) => {},
    }
}

proof fn lemma_child_unit(c: GreenChild)
    ensures
        unit_outline(child_outline(c)),
    decreases c,
{
    lemma_child_outline_closed(c);
    match c {
        GreenChild::Token(_) => {},
        GreenChild::Node(n) => {
            lemma_node_unit(n);
        },
    }
}

/// Where two runs end with the outline of a single child each, those
/// outlines are the same, and so is what comes before them.
proof fn lemma_unit_suffix(r1: Seq<Outline>, o1: Seq<Outline>, r2: Seq<Outline>, o2: Seq<Outline>)
    requires
        unit_outline(o1),
        unit_outline(o2),
        r1 + o1 == r2 + o2,
    ensures
        o1 == o2,
        r1 == r2,
{
    let x = r1 + o1;
    assert(x.len() == r1.len() + o1.len());
    if o1.len() < o2.len() {
        let d = o2.len() - o1.len();
        assert(o2 =~= o2.take(d) + o1) by {
            assert forall|i: int| 0 <= i < o2.len() implies o2[i] == (o2.take(d) + o1)[i] by {
                assert(o2[i] == x[r2.len() + i]);
                if i >= d {
                    assert(x[r2.len() + i] == x[r1.len() + (i - d)]);
                    assert(x[r1.len() + (i - d)] == o1[i - d]);
                }
            }
        }
        lemma_outline_depth_concat(o2.take(d), o1);
        assert(outline_depth(o2.take(d)) >= 1);
    } else if o2.len() < o1.len() {
        let d = o1.len() - o2.len();
        assert(o1 =~= o1.take(d) + o2) by {
            assert forall|i: int| 0 <= i < o1.len() implies o1[i] == (o1.take(d) + o2)[i] by {
                assert(o1[i] == x[r1.len() + i]);
                if i >= d {
                    assert(x[r1.len() + i] == x[r2.len() + (i - d)]);
                    assert(x[r2.len() + (i - d)] == o2[i - d]);
                }
            }
        }
        lemma_outline_depth_concat(o1.take(d), o2);
        assert(outline_depth(o1.take(d)) >= 1);
    } else {
        assert forall|i: int| 0 <= i < o1.len() implies o1[i] == o2[i] by {
            assert(o1[i] == x[r1.len() + i]);
            assert(o2[i] == x[r2.len() + i]);
        }
        assert(o1 =~= o2);
        assert forall|i: int| 0 <= i < r1.len() implies r1[i] == r2[i] by {
            assert(r1[i] == x[i]);
            assert(r2[i] == x[i]);
        }
        assert(r1 =~= r2);
    }
}

/// A compact, well-formed green node is determined by its outline and its
/// leaves: two such nodes that agree on both are copies of each other.
pub proof fn lemma_outline_determines(a: GreenNode, b: GreenNode)
    requires
        a.wf(),
        b.wf(),
        a.compact(),
        b.compact(),
        node_outline(a) == node_outline(b),
        a.leaves() == b.leaves(),
    ensures
        copy_of(a, b),
    decreases a,
{
    lemma_wf_total(a);
    lemma_wf_total(b);
    lemma_node_outline_closed(a);
    lemma_node_outline_closed(b);
    match a.children {
        GreenChildren::Token(t) => {
            assert(b.children is Token);
            assert(b.leaves() == seq![b.children->Token_0]);
            assert(a.leaves()[0] == t);
        },
        GreenChildren::Empty => {
            assert(!(b.children is Token));
            if b.children is Node {
                let ds = b.children->children@;
                assert(ds.len() > 0);
                lemma_child_outline_closed(ds.last());
                assert(children_outline(ds).len() >= 1);
                assert(node_outline(b).len() >= 3);
            }
        },
        GreenChildren::Node { children } => {
            let cs = children@;
            assert(cs.len() > 0);
            lemma_child_outline_closed(cs.last());
            assert(children_outline(cs).len() >= 1);
            assert(node_outline(a).len() >= 3);
            assert(!(b.children is Token));
            assert(!(b.children is Empty));
            let ds = b.spec_children();
            let ca = children_outline(cs);
            let cb = children_outline(ds);
            assert(ca =~= node_outline(a).subrange(1, node_outline(a).len() - 1));
            assert(cb =~= node_outline(b).subrange(1, node_outline(b).len() - 1));
            assert(decreases_to!(a => a.children));
            assert(decreases_to!(a.children => children));
            lemma_children_determined(cs, ds);
        },
    }
}

proof fn lemma_children_determined(cs: Seq<GreenChild>, ds: Seq<GreenChild>)
    requires
        wf_all(cs),
        wf_all(ds),
        compact_all(cs),
        compact_all(ds),
        children_outline(cs) == children_outline(ds),
        leaves_of(cs) == leaves_of(ds),
    ensures
        copies_of(cs, ds),
    decreases cs,
{
    if cs.len() == 0 {
        if ds.len() > 0 {
            lemma_child_outline_closed(ds.last());
        }
    } else {
        lemma_child_outline_closed(cs.last());
        if ds.len() == 0 {
            assert(children_outline(ds) =~= Seq::<Outline>::empty());
        } else {
            let (ic, lc) = (cs.drop_last(), cs.last());
            let (id, ld) = (ds.drop_last(), ds.last());
            lemma_child_unit(lc);
            lemma_child_unit(ld);
            lemma_unit_suffix(children_outline(ic), child_outline(lc), children_outline(id), child_outline(ld));
            lemma_child_leaf_count(lc);
            lemma_child_leaf_count(ld);
            let x = leaves_of(cs);
            let (y1, z1) = (leaves_of(ic), child_leaves(lc));
            let (y2, z2) = (leaves_of(id), child_leaves(ld));
            assert(x == y1 + z1);
            assert(x == y2 + z2);
            assert(z1.len() == z2.len());
            assert(z1 =~= x.subrange(y1.len() as int, x.len() as int));
            assert(z2 =~= x.subrange(y2.len() as int, x.len() as int));
            assert(y1 =~= x.subrange(0, y1.len() as int));
            assert(y2 =~= x.subrange(0, y2.len() as int));
            lemma_children_determined(ic, id);
            lemma_child_determined(lc, ld);
        }
    }
}

proof fn lemma_child_determined(c: GreenChild, d: GreenChild)
    requires
        child_wf(c),
        child_wf(d),
        child_compact(c),
        child_compact(d),
        child_outline(c) == child_outline(d),
        child_leaves(c) == child_leaves(d),
    ensures
        child_copy_of(c, d),
    decreases c,
{
    lemma_child_outline_closed(c);
    lemma_child_outline_closed(d);
    match c {
        GreenChild::Token(t) => {
            assert(d is Token);
            assert(child_leaves(d) == seq![d->Token_0]);
            assert(child_leaves(c)[0] == t);
        },
        GreenChild::Node(n) => {
            assert(d is Node);
            lemma_outline_determines(n, d->Node_0);
        },
    }
}

/// The events `es` without their marks.
pub open spec fn unmarked(es: Seq<GreenEvent>) -> Seq<GreenEvent>
    decreases es.len(),
{
    if es.len() == 0 {
        Seq::empty()
    } else if es.last() is Mark {
        unmarked(es.drop_last())
    } else {
        unmarked(es.drop_last()).push(es.last())
    }
}

/// Dropping the marks changes neither the outline, nor the tokens, nor the
/// depth; the first event stays first when it is no mark.
pub proof fn lemma_unmarked(es: Seq<GreenEvent>)
    ensures
        events_outline(unmarked(es)) == events_outline(es),
        token_events(unmarked(es)) == token_events(es),
        events_depth(unmarked(es)) == events_depth(es),
        es.len() > 0 && !(es[0] is Mark) ==> unmarked(es).len() > 0 && unmarked(es)[0] == es[0],
        stays_open(es) ==> stays_open(unmarked(es)),
    decreases es.len(),
{
    if es.len() > 0 {
        let init = es.drop_last();
        lemma_unmarked(init);
        if es.len() > 1 {
            assert(init[0] == es[0]);
        }
        if !(es.last() is Mark) {
            let u = unmarked(init).push(es.last());
            assert(u.drop_last() =~= unmarked(init));
            assert(u.last() == es.last());
        }
    }
}

/// Marks anywhere leave the marks dropped: the events with a mark put in
/// are, without marks, those without it.
pub proof fn lemma_unmarked_insert(es: Seq<GreenEvent>, m: int)
    requires
        0 <= m <= es.len(),
    ensures
        unmarked(es.insert(m, GreenEvent::Mark)) == unmarked(es),
    decreases es.len(),
{
    let es2 = es.insert(m, GreenEvent::Mark);
    if m == es.len() {
        assert(es2.drop_last() =~= es);
        assert(es2.last() is Mark);
    } else {
        lemma_unmarked_insert(es.drop_last(), m);
        assert(es2.drop_last() =~= es.drop_last().insert(m, GreenEvent::Mark));
        assert(es2.last() == es.last());
    }
}

/// Events that are well formed stay so without their marks.
pub proof fn lemma_unmarked_well_formed(es: Seq<GreenEvent>)
    requires
        well_formed_events(es),
    ensures
        well_formed_events(unmarked(es)),
{
    let init = es.drop_last();
    lemma_unmarked(es);
    lemma_unmarked(init);
    assert(init[0] == es[0]);
    assert(unmarked(es) == unmarked(init).push(es.last()));
    assert(unmarked(es).drop_last() =~= unmarked(init));
}

/// `r` is what [`GreenBuilder::build`] makes of the events `es` over a
/// source of `sl` bytes: a compact, well-formed node of the kind the first
/// event opens, whose outline is that of the events and whose leaves are
/// their tokens with the trivia between them.
pub open spec fn built_from_events(r: GreenNode, es: Seq<GreenEvent>, sl: u32) -> bool {
    &&& r.kind == es[0]->StartNode_kind
    &&& r.wf()
    &&& r.compact()
    &&& r.leaves() == tokens_with_trivia(token_events(es), sl)
    &&& node_outline(r) == events_outline(es)
}

/// Building is determined by the events: two nodes built from the same
/// events over the same source are copies of each other.
pub proof fn lemma_build_determined(es: Seq<GreenEvent>, sl: u32, a: GreenNode, b: GreenNode)
    requires
        built_from_events(a, es, sl),
        built_from_events(b, es, sl),
    ensures
        copy_of(a, b),
{
    lemma_outline_determines(a, b);
}

proof fn lemma_events_outline_concat(a: Seq<GreenEvent>, b: Seq<GreenEvent>)
    ensures
        events_outline(a + b) == events_outline(a) + events_outline(b),
        token_events(a + b) == token_events(a) + token_events(b),
    decreases b.len(),
{
    if b.len() == 0 {
        assert(a + b =~= a);
        assert(events_outline(a) + Seq::<Outline>::empty() =~= events_outline(a));
        assert(token_events(a) + Seq::<(SyntaxKind, u32, u32)>::empty() =~= token_events(a));
    } else {
        assert((a + b).drop_last() =~= a + b.drop_last());
        assert((a + b).last() == b.last());
        lemma_events_outline_concat(a, b.drop_last());
        assert(events_outline(a) + events_outline(b.drop_last()) + event_outline(b.last()) =~= events_outline(a)
            + (events_outline(b.drop_last()) + event_outline(b.last())));
        match b.last() {
            GreenEvent::Token { kind, len, start } => {
                assert(token_events(a) + token_events(b.drop_last()).push((kind, len, start)) =~= (token_events(a)
                    + token_events(b.drop_last())).push((kind, len, start)));
            },
            _ => {},
        }
    }
}

/// A mark that is never wrapped leaves no trace: with a mark put in
/// anywhere, before the first event and after the last too, the events
/// build, over the same source, a copy of what they build without it.
pub proof fn lemma_unwrapped_mark(es: Seq<GreenEvent>, m: int, sl: u32, a: GreenNode, b: GreenNode)
    requires
        0 <= m <= es.len(),
        built_from_events(a, unmarked(es), sl),
        built_from_events(b, unmarked(es.insert(m, GreenEvent::Mark)), sl),
    ensures
        unmarked(es.insert(m, GreenEvent::Mark)) == unmarked(es),
        copy_of(a, b),
{
    lemma_unmarked_insert(es, m);
    lemma_outline_determines(a, b);
}

/// A token event becomes a leaf: in what the events build, the leaf after
/// those of the tokens recorded before it has the token's kind and length.
pub proof fn lemma_token_becomes_leaf(
    before: Seq<GreenEvent>,
    after: Seq<GreenEvent>,
    kind: SyntaxKind,
    len: u32,
    start: u32,
    sl: u32,
    r: GreenNode,
)
    requires
        built_from_events(r, unmarked(before.push(GreenEvent::Token { kind, len, start }) + after), sl),
    ensures
        token_events(before).len() < r.leaves().len(),
        r.leaves()[token_events(before).len() as int].kind == kind,
        r.leaves()[token_events(before).len() as int].len == len,
{
    let e = GreenEvent::Token { kind, len, start };
    let es = before.push(e) + after;
    lemma_unmarked(es);
    lemma_events_outline_concat(before.push(e), after);
    reveal_with_fuel(token_events, 2);
    assert(before.push(e).drop_last() =~= before);
    let ts = token_events(es);
    let n = token_events(before).len() as int;
    assert(token_events(before.push(e)) == token_events(before).push((kind, len, start)));
    assert(ts[n] == (kind, len, start));
}

/// Rewinding to a checkpoint taken before some events were added gives
/// back exactly the events recorded at the checkpoint, so that building
/// then gives a copy of what building at the checkpoint would have.
pub proof fn lemma_rewind_restores(es: Seq<GreenEvent>, added: Seq<GreenEvent>, sl: u32, a: GreenNode, b: GreenNode)
    requires
        built_from_events(a, unmarked(es), sl),
        built_from_events(b, unmarked((es + added).take(es.len() as int)), sl),
    ensures
        (es + added).take(es.len() as int) == es,
        copy_of(a, b),
{
    assert((es + added).take(es.len() as int) =~= es);
    lemma_outline_determines(a, b);
}

/// A step taken while only the root is open is a [`top_step`].
proof fn lemma_outline_top_at(os: Seq<Outline>, j: int)
    requires
        outline_top_ok(os),
        1 <= j < os.len(),
        outline_depth(os.take(j)) == 1,
    ensures
        top_step(os[j]),
    decreases os.len(),
{
    if j == os.len() - 1 {
        assert(os.drop_last() =~= os.take(j));
    } else {
        assert(os.drop_last().take(j) =~= os.take(j));
        lemma_outline_top_at(os.drop_last(), j);
    }
}

/// The outline of events replayed under [`top_level_ok`] keeps the same
/// steps in the root.
proof fn lemma_events_outline_top(es: Seq<GreenEvent>)
    requires
        top_level_ok(es),
        es.len() >= 1,
        es[0] is StartNode,
    ensures
        outline_top_ok(events_outline(es)),
        outline_depth(events_outline(es)) == events_depth(es),
        events_outline(es).len() >= 1,
    decreases es.len(),
{
    let os = events_outline(es);
    if es.len() == 1 {
        reveal_with_fuel(events_outline, 2);
        reveal_with_fuel(events_depth, 2);
        reveal_with_fuel(outline_depth, 2);
        assert(es.drop_last() =~= Seq::<GreenEvent>::empty());
        assert(os =~= event_outline(es[0]));
        assert(os.drop_last() =~= Seq::<Outline>::empty());
    } else {
        let init = es.drop_last();
        let e = es.last();
        assert(init[0] == es[0]);
        lemma_events_outline_top(init);
        let oi = events_outline(init);
        assert(os == oi + event_outline(e));
        match e {
            GreenEvent::Mark => {
                assert(os =~= oi);
            },
            _ => {
                let x = event_outline(e)[0];
                assert(event_outline(e) =~= seq![x]);
                assert(os =~= oi.push(x));
                assert(os.drop_last() =~= oi);
                assert(os.last() == x);
                if outline_depth(oi) == 1 {
                    assert(top_event(e));
                }
            },
        }
    }
}

/// The root built from events replayed under [`top_level_ok`] holds only
/// external declarations and error nodes.
pub proof fn lemma_declarations_at_top(g: GreenNode, es: Seq<GreenEvent>)
    requires
        node_outline(g) == events_outline(es),
        top_level_ok(es),
        well_formed_events(es),
    ensures
        declarations_at_top(g),
{
    lemma_events_outline_top(es);
    let os = node_outline(g);
    match g.children {
        GreenChildren::Node { children } => {
            let cs = children@;
            assert forall|i: int| 0 <= i < g.spec_children().len() implies {
                let c = #[trigger] g.spec_children()[i];
                &&& c is Node
                &&& c->Node_0.spec_token() is None
                &&& (c->Node_0.kind == SyntaxKind::ExternalDeclaration || c->Node_0.kind == SyntaxKind::Error)
            } by {
                let a = cs.take(i);
                let b = cs.skip(i);
                assert(cs =~= a + b);
                lemma_children_outline_concat(a, b);
                assert(b =~= seq![cs[i]] + b.skip(1));
                lemma_children_outline_concat(seq![cs[i]], b.skip(1));
                assert(seq![cs[i]].drop_last() =~= Seq::<GreenChild>::empty());
                assert(seq![cs[i]].last() == cs[i]);
                assert(children_outline(Seq::<GreenChild>::empty()) =~= Seq::<Outline>::empty());
                assert(children_outline(seq![cs[i]]) =~= Seq::<Outline>::empty() + child_outline(cs[i]));
                assert(children_outline(seq![cs[i]]) =~= child_outline(cs[i]));
                lemma_children_outline_closed(a);
                lemma_child_outline_closed(cs[i]);
                let pre = seq![Outline::Open(g.kind)] + children_outline(a);
                let j = pre.len() as int;
                assert(os =~= pre + (child_outline(cs[i]) + children_outline(b.skip(1)) + seq![Outline::Close]));
                assert(os.take(j) =~= pre);
                assert(os[j] == child_outline(cs[i])[0]);
                lemma_outline_depth_concat(seq![Outline::Open(g.kind)], children_outline(a));
                reveal_with_fuel(outline_depth, 2);
                assert(seq![Outline::Open(g.kind)].drop_last() =~= Seq::<Outline>::empty());
                assert(outline_depth(pre) == 1);
                assert(j < os.len());
                lemma_outline_top_at(os, j);
            }
        },
        _ => {},
    }
}

/// How an event changes the number of open nodes.
pub open spec fn event_delta(e: GreenEvent) -> int {
    match e {
        GreenEvent::StartNode { .. } => 1,
        GreenEvent::FinishNode => -1,
        _ => 0,
    }
}

/// Number of nodes left open after replaying `es`.
pub open spec fn events_depth(es: Seq<GreenEvent>) -> int
    decreases es.len(),
{
    if es.len() == 0 {
        0
    } else {
        events_depth(es.drop_last()) + event_delta(es.last())
    }
}

/// Every non-empty prefix of `es` leaves at least one node open.
pub open spec fn stays_open(es: Seq<GreenEvent>) -> bool
    decreases es.len(),
{
    if es.len() == 0 {
        true
    } else {
        stays_open(es.drop_last()) && events_depth(es) >= 1
    }
}

/// The event stream describes exactly one root node: it starts that node,
/// never closes it early, and closes it with its last event.
pub open spec fn well_formed_events(es: Seq<GreenEvent>) -> bool {
    &&& es.len() >= 2
    &&& es[0] is StartNode
    &&& es.last() is FinishNode
    &&& stays_open(es.drop_last())
    &&& events_depth(es) == 0
}

/// An event that may stand directly in the root: an external declaration
/// or an error node opens, or the root closes.
pub open spec fn top_event(e: GreenEvent) -> bool {
    match e {
        GreenEvent::StartNode { kind } => kind == SyntaxKind::ExternalDeclaration || kind == SyntaxKind::Error,
        GreenEvent::FinishNode => true,
        _ => false,
    }
}

/// Every event after the first that is replayed while only the root is open
/// is a [`top_event`].
pub open spec fn top_level_ok(es: Seq<GreenEvent>) -> bool
    decreases es.len(),
{
    es.len() <= 1 || (top_level_ok(es.drop_last()) && (events_depth(es.drop_last()) == 1 ==> top_event(
        es.last(),
    )))
}

/// Appending an event keeps [`top_level_ok`] when the event may stand in the
/// root, or the root is not the only node open.
pub proof fn lemma_top_level_push(es: Seq<GreenEvent>, e: GreenEvent)
    requires
        top_level_ok(es),
        es.len() >= 1,
        events_depth(es) == 1 ==> top_event(e),
    ensures
        top_level_ok(es.push(e)),
        events_depth(es.push(e)) == events_depth(es) + event_delta(e),
{
    assert(es.push(e).drop_last() =~= es);
    assert(es.push(e).last() == e);
}

/// The token events of `es`, in order, as (kind, length, start).
pub open spec fn token_events(es: Seq<GreenEvent>) -> Seq<(SyntaxKind, u32, u32)>
    decreases es.len(),
{
    if es.len() == 0 {
        Seq::empty()
    } else {
        match es.last() {
            GreenEvent::Token { kind, len, start } => token_events(es.drop_last()).push((kind, len, start)),
            _ => token_events(es.drop_last()),
        }
    }
}

/// End offset of a recorded token.
pub open spec fn span_end(t: (SyntaxKind, u32, u32)) -> int {
    t.2 + t.1
}

/// Tokens follow each other without overlapping and end within `u32` range.
pub open spec fn tokens_ordered(ts: Seq<(SyntaxKind, u32, u32)>) -> bool {
    &&& forall|i: int| 0 <= i < ts.len() ==> #[trigger] span_end(ts[i]) <= u32::MAX
    &&& forall|i: int| 0 < i < ts.len() ==> span_end(ts[i - 1]) <= (#[trigger] ts[i]).2
}

/// The tokens with their trivia (see [`tokens_with_trivia`]) have a total
/// length within `u32` range, so that every node over them has one too.
pub open spec fn leaves_fit(ts: Seq<(SyntaxKind, u32, u32)>, source_len: u32) -> bool {
    tokens_total(tokens_with_trivia(ts, source_len)) <= u32::MAX
}

/// A prefix of tokens is no longer than all of them.
proof fn lemma_prefix_total(ts: Seq<GreenToken>, k: int)
    requires
        0 <= k <= ts.len(),
    ensures
        tokens_total(ts.take(k)) <= tokens_total(ts),
{
    assert(ts =~= ts.take(k) + ts.skip(k));
    lemma_tokens_total_concat(ts.take(k), ts.skip(k));
    lemma_tokens_total_nonneg(ts.skip(k));
}

/// End of the token before position `i` (zero before the first one).
pub open spec fn prev_end(ts: Seq<(SyntaxKind, u32, u32)>, i: int) -> int {
    if i <= 0 {
        0
    } else {
        span_end(ts[i - 1])
    }
}

/// `a - b`, or zero when `b` exceeds `a`.
pub open spec fn sat_sub(a: int, b: int) -> int {
    if a >= b {
        a - b
    } else {
        0
    }
}

/// The green token built for the `i`-th recorded token: its leading trivia
/// is the gap since the previous token, and the last token also carries the
/// gap up to the end of the source as trailing trivia.
pub open spec fn token_with_trivia(ts: Seq<(SyntaxKind, u32, u32)>, source_len: u32, i: int) -> GreenToken {
    GreenToken {
        kind: ts[i].0,
        len: ts[i].1,
        leading_trivia: sat_sub(ts[i].2 as int, prev_end(ts, i)) as u32,
        trailing_trivia: if i == ts.len() - 1 {
            sat_sub(source_len as int, span_end(ts[i])) as u32
        } else {
            0
        },
    }
}

/// All recorded tokens turned into green tokens.
pub open spec fn tokens_with_trivia(ts: Seq<(SyntaxKind, u32, u32)>, source_len: u32) -> Seq<GreenToken> {
    Seq::new(ts.len(), |i: int| token_with_trivia(ts, source_len, i))
}

/// Index of the last `Mark` in `es`, or -1.
pub open spec fn last_mark(es: Seq<GreenEvent>) -> int
    decreases es.len(),
{
    if es.len() == 0 {
        -1
    } else if es.last() is Mark {
        es.len() - 1
    } else {
        last_mark(es.drop_last())
    }
}

/// A node under construction inside [`GreenBuilder::build`].
struct Frame {
    kind: SyntaxKind,
    children: Vec<GreenChild>,
}

/// The tokens already collected by a stack of frames, bottom to top.
spec fn frames_leaves(fs: Seq<Frame>) -> Seq<GreenToken>
    decreases fs.len(),
{
    if fs.len() == 0 {
        Seq::empty()
    } else {
        frames_leaves(fs.drop_last()) + leaves_of(fs.last().children@)
    }
}

/// Every frame of the stack holds well-formed, compact children.
spec fn frames_wf(fs: Seq<Frame>) -> bool {
    forall|j: int| 0 <= j < fs.len() ==> wf_all(#[trigger] fs[j].children@) && compact_all(fs[j].children@)
}

proof fn lemma_children_outline_push(cs: Seq<GreenChild>, c: GreenChild)
    ensures
        children_outline(cs.push(c)) == children_outline(cs) + child_outline(c),
{
    assert(cs.push(c).drop_last() =~= cs);
    assert(cs.push(c).last() == c);
}

/// The state of [`GreenBuilder::build`] after replaying the first `i` events
/// of `es`, `k` of them tokens, the last token ending at `prev`.
spec fn building(
    stack: Seq<Frame>,
    current: Frame,
    root: Option<GreenNode>,
    es: Seq<GreenEvent>,
    sl: u32,
    i: int,
    k: int,
    prev: u64,
) -> bool {
    let n = es.len();
    let ts = token_events(es);
    let leaves_all = tokens_with_trivia(ts, sl);
    &&& 0 <= i <= n
    &&& k == token_events(es.take(i)).len()
    &&& k <= ts.len()
    &&& ts.take(k) == token_events(es.take(i))
    &&& prev == prev_end(ts, k)
    &&& i == 0 ==> stack.len() == 0 && current.kind == SyntaxKind::Error && current.children@.len() == 0
    &&& 0 < i < n ==> {
        &&& stack.len() == events_depth(es.take(i))
        &&& stack.len() >= 1
        &&& stack[0].kind == SyntaxKind::Error
        &&& stack[0].children@.len() == 0
        &&& (if stack.len() >= 2 {
            stack[1].kind
        } else {
            current.kind
        }) == es[0]->StartNode_kind
    }
    &&& i < n ==> root is None
    &&& i == n ==> (root matches Some(r) && r.kind == es[0]->StartNode_kind && r.wf() && r.compact() && r.leaves()
        == leaves_all && node_outline(r) == events_outline(es))
    &&& frames_wf(stack)
    &&& i < n ==> wf_all(current.children@) && compact_all(current.children@)
    &&& i < n ==> frames_leaves(stack) + leaves_of(current.children@) == leaves_all.take(k)
    &&& i < n ==> built_outline(stack, current) == events_outline(es.take(i))
}

/// What replaying one more event, the one at `i`, does to the counts.
proof fn lemma_event_step(es: Seq<GreenEvent>, i: int)
    requires
        well_formed_events(es),
        0 <= i < es.len(),
    ensures
        es.take(i + 1) == es.take(i).push(es[i]),
        token_events(es.take(i + 1)) == match es[i] {
            GreenEvent::Token { kind, len, start } => token_events(es.take(i)).push((kind, len, start)),
            _ => token_events(es.take(i)),
        },
        events_outline(es.take(i + 1)) == events_outline(es.take(i)) + event_outline(es[i]),
        events_depth(es.take(i + 1)) == events_depth(es.take(i)) + event_delta(es[i]),
        i + 1 == es.len() ==> es[i] is FinishNode && es.take(i + 1) == es,
        i == 0 ==> es[i] is StartNode && es.take(i) == Seq::<GreenEvent>::empty(),
        i + 1 < es.len() ==> events_depth(es.take(i + 1)) >= 1,
        token_events(es.take(i + 1)).len() <= token_events(es).len(),
        token_events(es).take(token_events(es.take(i + 1)).len() as int) == token_events(es.take(i + 1)),
{
    assert(es.take(i + 1).drop_last() =~= es.take(i));
    assert(es.take(i + 1).last() == es[i]);
    assert(es.take(i + 1) =~= es.take(i).push(es[i]));
    if i + 1 == es.len() {
        assert(es.take(i + 1) =~= es);
    }
    if i == 0 {
        assert(es.take(0) =~= Seq::<GreenEvent>::empty());
    }
    lemma_token_prefix(es, i + 1);
    if i + 1 < es.len() {
        assert(es.drop_last().take(i + 1) =~= es.take(i + 1));
        lemma_stays_open(es.drop_last(), i + 1);
    }
}

/// A mark changes nothing but the number of events replayed.
proof fn lemma_mark_step(
    stack: Seq<Frame>,
    current: Frame,
    root: Option<GreenNode>,
    es: Seq<GreenEvent>,
    sl: u32,
    i: int,
    k: int,
    prev: u64,
)
    requires
        building(stack, current, root, es, sl, i, k, prev),
        well_formed_events(es),
        0 <= i < es.len(),
        es[i] is Mark,
    ensures
        building(stack, current, root, es, sl, i + 1, k, prev),
{
    lemma_event_step(es, i);
    assert(token_events(es.take(i + 1)) == token_events(es.take(i)));
    assert(events_outline(es.take(i + 1)) =~= events_outline(es.take(i)));
}

/// Replay a start event: the current node is suspended and a new one opens.
fn start_frame(
    stack: &mut Vec<Frame>,
    current: &mut Frame,
    kind: SyntaxKind,
    Ghost(es): Ghost<Seq<GreenEvent>>,
    Ghost(sl): Ghost<u32>,
    Ghost(i): Ghost<int>,
    Ghost(k): Ghost<int>,
    Ghost(root): Ghost<Option<GreenNode>>,
    Ghost(prev): Ghost<u64>,
)
    requires
        building(old(stack)@, *old(current), root, es, sl, i, k, prev),
        well_formed_events(es),
        0 <= i < es.len(),
        es[i] == (GreenEvent::StartNode { kind }),
    ensures
        building(final(stack)@, *final(current), root, es, sl, i + 1, k, prev),
{
    proof {
        lemma_event_step(es, i);
        assert(token_events(es.take(i + 1)) == token_events(es.take(i)));
    }
    let ghost old_stack = stack@;
    let ghost old_cur = *current;
    let mut suspended = Frame { kind, children: Vec::new() };
    std::mem::swap(current, &mut suspended);
    stack.push(suspended);
    proof {
        let leaves_all = tokens_with_trivia(token_events(es), sl);
        assert(stack@ == old_stack.push(old_cur));
        assert(stack@.drop_last() =~= old_stack);
        assert(frames_leaves(stack@) == frames_leaves(old_stack) + leaves_of(old_cur.children@));
        assert(leaves_of(current.children@) =~= Seq::<GreenToken>::empty());
        assert(frames_leaves(stack@) + leaves_of(current.children@) =~= frames_leaves(old_stack) + leaves_of(
            old_cur.children@,
        ));
        assert forall|j: int| 0 <= j < stack@.len() implies wf_all(#[trigger] stack@[j].children@)
            && compact_all(stack@[j].children@) by {
            if j < old_stack.len() {
                assert(stack@[j] == old_stack[j]);
            }
        }
        assert(children_outline(current.children@) =~= Seq::<Outline>::empty());
        if old_stack.len() == 0 {
            assert(built_outline(stack@, *current) =~= events_outline(es.take(i + 1)));
        } else {
            assert(frames_outline(stack@) == frames_outline(old_stack) + seq![Outline::Open(old_cur.kind)]
                + children_outline(old_cur.children@));
            assert(built_outline(stack@, *current) =~= built_outline(old_stack, old_cur) + seq![
                Outline::Open(kind),
            ]);
        }
        assert(stack@[0].kind == SyntaxKind::Error);
    }
}

/// Replay a finish event: the current node is complete, and joins the node
/// it was opened in, or becomes the root.
#[verifier::spinoff_prover]
#[verifier::rlimit(30)]
fn finish_frame(
    stack: &mut Vec<Frame>,
    current: &mut Frame,
    root: &mut Option<GreenNode>,
    Ghost(es): Ghost<Seq<GreenEvent>>,
    Ghost(sl): Ghost<u32>,
    Ghost(i): Ghost<int>,
    Ghost(k): Ghost<int>,
    Ghost(prev): Ghost<u64>,
)
    requires
        building(old(stack)@, *old(current), *old(root), es, sl, i, k, prev),
        well_formed_events(es),
        leaves_fit(token_events(es), sl),
        0 <= i < es.len(),
        es[i] is FinishNode,
    ensures
        building(final(stack)@, *final(current), *final(root), es, sl, i + 1, k, prev),
{
    let ghost ts = token_events(es);
    let ghost leaves_all = tokens_with_trivia(ts, sl);
    proof {
        lemma_event_step(es, i);
        assert(token_events(es.take(i + 1)) == token_events(es.take(i)));
        lemma_prefix_total(leaves_all, k);
        lemma_frames_leaves_total(stack@, current.children@);
        lemma_wf_all_total(current.children@);
    }
    let ghost old_stack = stack@;
    let popped = stack.pop().unwrap();
    let mut done = popped;
    std::mem::swap(current, &mut done);
    proof {
        assert(stack@ == old_stack.drop_last());
        assert(popped == old_stack.last());
        assert(frames_leaves(old_stack) == frames_leaves(stack@) + leaves_of(popped.children@));
        assert(wf_all(old_stack[old_stack.len() - 1].children@));
        assert(wf_all(popped.children@));
        assert(compact_all(popped.children@));
        assert(frames_wf(stack@)) by {
            assert forall|j: int| 0 <= j < stack@.len() implies wf_all(#[trigger] stack@[j].children@)
                && compact_all(stack@[j].children@) by {
                assert(stack@[j] == old_stack[j]);
            }
        }
        lemma_sum_lens_nonneg(done.children@);
        lemma_tokens_total_nonneg(frames_leaves(old_stack));
        lemma_tokens_total_concat(frames_leaves(old_stack), leaves_of(done.children@));
    }
    let ghost done_children = done.children@;
    let node = GreenNode::new(done.kind, done.children);
    proof {
        assert(node.leaves() == leaves_of(done_children));
        assert(node.wf());
        assert(node.compact());
        assert(node_outline(node) =~= seq![Outline::Open(done.kind)] + children_outline(done_children) + seq![
            Outline::Close,
        ]);
    }
    if stack.len() == 0 && current.kind == SyntaxKind::Error && current.children.len() == 0 {
        proof {
            assert(i + 1 == es.len());
            assert(leaves_of(Seq::<GreenChild>::empty()) =~= Seq::<GreenToken>::empty());
            assert(frames_leaves(Seq::<Frame>::empty()) =~= Seq::<GreenToken>::empty());
            assert(leaves_of(popped.children@) =~= Seq::<GreenToken>::empty());
            assert(frames_leaves(old_stack) =~= Seq::<GreenToken>::empty());
            assert(k == ts.len());
            assert(leaves_all.take(k) =~= leaves_all);
            assert(node.leaves() == leaves_all);
            assert(old_stack.len() == 1);
            assert(node.kind == es[0]->StartNode_kind);
            assert(frames_outline(old_stack) =~= Seq::<Outline>::empty());
            assert(node_outline(node) =~= built_outline(old_stack, done) + seq![Outline::Close]);
        }
        *root = Some(node);
    } else {
        let ghost old_children = current.children@;
        current.children.push(GreenChild::Node(node));
        proof {
            assert(current.children@ == old_children.push(GreenChild::Node(node)));
            assert(current.children@.drop_last() =~= old_children);
            assert(child_wf(GreenChild::Node(node)));
            assert(child_compact(GreenChild::Node(node)));
            assert(child_leaves(GreenChild::Node(node)) == node.leaves());
            assert(wf_all(current.children@));
            assert(compact_all(current.children@));
            assert(leaves_of(current.children@) == leaves_of(old_children) + node.leaves());
            assert(frames_leaves(stack@) + leaves_of(current.children@) =~= frames_leaves(old_stack) + leaves_of(
                done_children,
            ));
            assert(old_stack.len() >= 2);
            assert(old_stack.drop_last() == stack@);
            assert(frames_outline(old_stack) == frames_outline(stack@) + seq![Outline::Open(popped.kind)]
                + children_outline(old_children));
            lemma_children_outline_push(old_children, GreenChild::Node(node));
            assert(built_outline(stack@, *current) =~= built_outline(old_stack, done) + seq![Outline::Close]);
            if i + 1 < es.len() {
                assert(stack@.len() == events_depth(es.take(i + 1)));
                assert(stack@[0] == old_stack[0]);
                if stack@.len() >= 2 {
                    assert(stack@[1] == old_stack[1]);
                }
            }
        }
    }
}

/// Replay a token event: the token joins the current node, with the gap
/// since the previous token as leading trivia (and, for the last token, the
/// rest of the source as trailing trivia). Returns where the token ends.
fn add_token(
    current: &mut Frame,
    kind: SyntaxKind,
    len: u32,
    start: u32,
    k: usize,
    prev: u64,
    ntok: usize,
    sl: u32,
    Ghost(stack): Ghost<Seq<Frame>>,
    Ghost(es): Ghost<Seq<GreenEvent>>,
    Ghost(i): Ghost<int>,
    Ghost(root): Ghost<Option<GreenNode>>,
) -> (end: u64)
    requires
        building(stack, *old(current), root, es, sl, i, k as int, prev),
        well_formed_events(es),
        ntok == token_events(es).len(),
        0 <= i < es.len(),
        es[i] == (GreenEvent::Token { kind, len, start }),
    ensures
        building(stack, *final(current), root, es, sl, i + 1, k + 1, end),
{
    let ghost ts = token_events(es);
    let ghost leaves_all = tokens_with_trivia(ts, sl);
    proof {
        lemma_event_step(es, i);
        assert(token_events(es.take(i + 1)) == token_events(es.take(i)).push((kind, len, start)));
        assert(ts.take(k + 1)[k as int] == (kind, len, start));
        assert(ts[k as int] == (kind, len, start));
    }
    let leading: u32 = if start as u64 >= prev {
        (start as u64 - prev) as u32
    } else {
        0
    };
    let end: u64 = start as u64 + len as u64;
    let trailing: u32 = if k + 1 == ntok {
        if sl as u64 >= end {
            (sl as u64 - end) as u32
        } else {
            0
        }
    } else {
        0
    };
    let token = GreenToken { kind, len, leading_trivia: leading, trailing_trivia: trailing };
    let ghost old_children = current.children@;
    current.children.push(GreenChild::Token(token));
    proof {
        assert(token == token_with_trivia(ts, sl, k as int));
        assert(leaves_all.take(k + 1) =~= leaves_all.take(k as int).push(token));
        assert(current.children@ == old_children.push(GreenChild::Token(token)));
        assert(current.children@.drop_last() =~= old_children);
        assert(child_leaves(GreenChild::Token(token)) == seq![token]);
        assert(leaves_of(current.children@) == leaves_of(old_children) + seq![token]);
        assert(child_wf(GreenChild::Token(token)));
        assert(child_compact(GreenChild::Token(token)));
        assert(wf_all(current.children@));
        assert(compact_all(current.children@));
        assert(frames_leaves(stack) + leaves_of(current.children@) =~= leaves_all.take(k + 1));
        assert(ts.take(k + 1) =~= ts.take(k as int).push(ts[k as int]));
        lemma_children_outline_push(old_children, GreenChild::Token(token));
        assert(built_outline(stack, *current) =~= built_outline(stack, *old(current)) + seq![
            Outline::Leaf(kind),
        ]);
        assert(prev_end(ts, k + 1) == end);
    }
    end
}

/// The outline of the nodes a stack of frames holds open, bottom to top;
/// the bottom frame stands for no node.
spec fn frames_outline(fs: Seq<Frame>) -> Seq<Outline>
    decreases fs.len(),
{
    if fs.len() <= 1 {
        Seq::empty()
    } else {
        frames_outline(fs.drop_last()) + seq![Outline::Open(fs.last().kind)] + children_outline(
            fs.last().children@,
        )
    }
}

/// The outline of the events replayed so far: the open frames, then the node
/// under construction (when any is open).
spec fn built_outline(fs: Seq<Frame>, cur: Frame) -> Seq<Outline> {
    if fs.len() == 0 {
        Seq::empty()
    } else {
        frames_outline(fs) + seq![Outline::Open(cur.kind)] + children_outline(cur.children@)
    }
}

proof fn lemma_tokens_total_nonneg(ts: Seq<GreenToken>)
    ensures
        tokens_total(ts) >= 0,
    decreases ts.len(),
{
    if ts.len() > 0 {
        lemma_tokens_total_nonneg(ts.drop_last());
    }
}

/// The total length of a concatenation is the sum of the totals.
pub proof fn lemma_tokens_total_concat(a: Seq<GreenToken>, b: Seq<GreenToken>)
    ensures
        tokens_total(a + b) == tokens_total(a) + tokens_total(b),
    decreases b.len(),
{
    if b.len() == 0 {
        assert(a + b =~= a);
    } else {
        assert((a + b).drop_last() =~= a + b.drop_last());
        lemma_tokens_total_concat(a, b.drop_last());
    }
}

/// For well-formed nodes the length field is the total length of the leaves.
pub proof fn lemma_wf_total(n: GreenNode)
    requires
        n.wf(),
    ensures
        n.len == tokens_total(n.leaves()),
    decreases n,
{
    match n.children {
        GreenChildren::Empty => {
            assert(n.len == 0);
            assert(n.leaves() =~= Seq::<GreenToken>::empty());
            assert(tokens_total(Seq::<GreenToken>::empty()) == 0);
            assert(n.len == tokens_total(n.leaves()));
        },
        GreenChildren::Token(t) => {
            assert(n.leaves() == seq![t]);
            assert(seq![t].drop_last() =~= Seq::<GreenToken>::empty());
            assert(seq![t].last() == t);
            assert(tokens_total(Seq::<GreenToken>::empty()) == 0);
            assert(tokens_total(seq![t]) == t.spec_total_len());
            assert(n.len == tokens_total(n.leaves()));
        },
        GreenChildren::Node { children } => {
            assert(wf_all(children@));
            lemma_wf_all_total(children@);
            assert(n.len == tokens_total(n.leaves()));
        },
    }
}

/// For well-formed children the summed lengths are the total length of the leaves.
pub proof fn lemma_wf_all_total(cs: Seq<GreenChild>)
    requires
        wf_all(cs),
    ensures
        sum_lens(cs) == tokens_total(leaves_of(cs)),
    decreases cs,
{
    if cs.len() > 0 {
        let c = cs.last();
        assert(wf_all(cs.drop_last()) && child_wf(c));
        lemma_wf_all_total(cs.drop_last());
        lemma_tokens_total_concat(leaves_of(cs.drop_last()), child_leaves(c));
        match c {
            GreenChild::Token(t) => {
                assert(child_leaves(c) == seq![t]);
                assert(seq![t].drop_last() =~= Seq::<GreenToken>::empty());
                assert(seq![t].last() == t);
                assert(tokens_total(Seq::<GreenToken>::empty()) == 0);
                assert(tokens_total(seq![t]) == t.spec_total_len());
            },
            GreenChild::Node(n) => {
                assert(n.wf());
                lemma_wf_total(n);
                assert(child_leaves(c) == n.leaves());
            },
        }
        assert(sum_lens(cs) == sum_lens(cs.drop_last()) + c.spec_len());
        assert(leaves_of(cs) == leaves_of(cs.drop_last()) + child_leaves(c));
    } else {
        assert(leaves_of(cs) =~= Seq::<GreenToken>::empty());
        assert(tokens_total(Seq::<GreenToken>::empty()) == 0);
    }
}

proof fn lemma_frames_leaves_total(fs: Seq<Frame>, cs: Seq<GreenChild>)
    ensures
        tokens_total(leaves_of(cs)) <= tokens_total(frames_leaves(fs) + leaves_of(cs)),
{
    lemma_tokens_total_concat(frames_leaves(fs), leaves_of(cs));
    lemma_tokens_total_nonneg(frames_leaves(fs));
}

/// Every prefix of a stream that stays open has a node open.
pub proof fn lemma_stays_open(s: Seq<GreenEvent>, j: int)
    requires
        stays_open(s),
        1 <= j <= s.len(),
    ensures
        events_depth(s.take(j)) >= 1,
    decreases s.len(),
{
    if j == s.len() {
        assert(s.take(j) =~= s);
    } else {
        assert(s.drop_last().take(j) =~= s.take(j));
        lemma_stays_open(s.drop_last(), j);
    }
}

/// The tokens of a prefix of the events are a prefix of all tokens.
pub proof fn lemma_token_prefix(es: Seq<GreenEvent>, i: int)
    requires
        0 <= i <= es.len(),
    ensures
        token_events(es.take(i)).len() <= token_events(es).len(),
        token_events(es).take(token_events(es.take(i)).len() as int) == token_events(es.take(i)),
    decreases es.len() - i,
{
    if i == es.len() {
        assert(es.take(i) =~= es);
        assert(token_events(es).take(token_events(es).len() as int) =~= token_events(es));
    } else {
        lemma_token_prefix(es, i + 1);
        assert(es.take(i + 1).drop_last() =~= es.take(i));
        let a = token_events(es.take(i));
        let b = token_events(es.take(i + 1));
        let t = token_events(es);
        assert(t.take(a.len() as int) =~= b.take(a.len() as int));
        assert(b.take(a.len() as int) =~= a);
    }
}

/// The tokens of two event streams put together.
pub proof fn lemma_token_events_concat(a: Seq<GreenEvent>, b: Seq<GreenEvent>)
    ensures
        token_events(a + b) == token_events(a) + token_events(b),
    decreases b.len(),
{
    if b.len() == 0 {
        assert(a + b =~= a);
        assert(token_events(a) + token_events(b) =~= token_events(a));
    } else {
        assert((a + b).drop_last() =~= a + b.drop_last());
        assert((a + b).last() == b.last());
        lemma_token_events_concat(a, b.drop_last());
        match b.last() {
            GreenEvent::Token { kind, len, start } => {
                assert(token_events(a) + token_events(b.drop_last()).push((kind, len, start))
                    =~= (token_events(a) + token_events(b.drop_last())).push((kind, len, start)));
            },
            _ => {},
        }
    }
}

/// The depth reached by two event streams put together.
pub proof fn lemma_depth_concat(a: Seq<GreenEvent>, b: Seq<GreenEvent>)
    ensures
        events_depth(a + b) == events_depth(a) + events_depth(b),
    decreases b.len(),
{
    if b.len() == 0 {
        assert(a + b =~= a);
    } else {
        assert((a + b).drop_last() =~= a + b.drop_last());
        assert((a + b).last() == b.last());
        lemma_depth_concat(a, b.drop_last());
    }
}

/// Appending events keeps a node open as long as every prefix of the
/// appended part leaves one open.
pub proof fn lemma_stays_open_concat(a: Seq<GreenEvent>, b: Seq<GreenEvent>)
    requires
        stays_open(a),
        forall|j: int| 1 <= j <= b.len() ==> events_depth(a) + events_depth(#[trigger] b.take(j)) >= 1,
    ensures
        stays_open(a + b),
    decreases b.len(),
{
    if b.len() == 0 {
        assert(a + b =~= a);
    } else {
        let c = b.drop_last();
        assert forall|j: int| 1 <= j <= c.len() implies events_depth(a) + events_depth(
            #[trigger] c.take(j),
        ) >= 1 by {
            assert(c.take(j) =~= b.take(j));
        }
        lemma_stays_open_concat(a, c);
        assert((a + b).drop_last() =~= a + c);
        assert(b.take(b.len() as int) =~= b);
        lemma_depth_concat(a, b);
    }
}

/// A prefix of a stream that stays open stays open.
pub proof fn lemma_stays_open_take(s: Seq<GreenEvent>, j: int)
    requires
        stays_open(s),
        0 <= j <= s.len(),
    ensures
        stays_open(s.take(j)),
    decreases s.len(),
{
    if j == s.len() {
        assert(s.take(j) =~= s);
    } else {
        assert(s.drop_last().take(j) =~= s.take(j));
        lemma_stays_open_take(s.drop_last(), j);
    }
}

/// Inserting a `StartNode` opens one more node without touching the tokens.
pub proof fn lemma_insert_start(es: Seq<GreenEvent>, c: int, kind: SyntaxKind)
    requires
        0 <= c <= es.len(),
        stays_open(es),
    ensures
        token_events(es.insert(c, GreenEvent::StartNode { kind })) == token_events(es),
        events_depth(es.insert(c, GreenEvent::StartNode { kind })) == events_depth(es) + 1,
        stays_open(es.insert(c, GreenEvent::StartNode { kind })),
{
    let st = GreenEvent::StartNode { kind };
    let a = es.take(c);
    let r = es.skip(c);
    let b = seq![st] + r;
    assert(es =~= a + r);
    assert(es.insert(c, st) =~= a + b);
    lemma_token_events_concat(a, b);
    lemma_token_events_concat(a, r);
    lemma_token_events_concat(seq![st], r);
    assert(seq![st].drop_last() =~= Seq::<GreenEvent>::empty());
    reveal_with_fuel(token_events, 2);
    reveal_with_fuel(events_depth, 2);
    assert(token_events(seq![st]) =~= Seq::<(SyntaxKind, u32, u32)>::empty());
    assert(events_depth(seq![st]) == 1);
    assert(token_events(seq![st]) + token_events(r) =~= token_events(r));
    lemma_depth_concat(a, b);
    lemma_depth_concat(a, r);
    lemma_depth_concat(seq![st], r);
    lemma_stays_open_take(es, c);
    assert forall|j: int| 1 <= j <= b.len() implies events_depth(a) + events_depth(
        #[trigger] b.take(j),
    ) >= 1 by {
        assert(b.take(j) =~= seq![st] + r.take(j - 1));
        lemma_depth_concat(seq![st], r.take(j - 1));
        assert(es.take(c + j - 1) =~= a + r.take(j - 1));
        lemma_depth_concat(a, r.take(j - 1));
        if c + j - 1 >= 1 {
            lemma_stays_open(es, c + j - 1);
        } else {
            assert(a.len() == 0 && r.take(j - 1).len() == 0);
            assert(a =~= Seq::<GreenEvent>::empty());
            assert(r.take(j - 1) =~= Seq::<GreenEvent>::empty());
        }
    }
    lemma_stays_open_concat(a, b);
}

/// Total length of the first `k` trivia-carrying tokens.
pub open spec fn total_upto(ts: Seq<(SyntaxKind, u32, u32)>, source_len: u32, k: int) -> int {
    if k <= 0 {
        0
    } else if k < ts.len() {
        span_end(ts[k - 1])
    } else if source_len >= span_end(ts[ts.len() - 1]) {
        source_len as int
    } else {
        span_end(ts[ts.len() - 1])
    }
}

/// The first `k` tokens with trivia tile the source up to the end of token `k`.
pub proof fn lemma_total_with_trivia(ts: Seq<(SyntaxKind, u32, u32)>, source_len: u32, k: int)
    requires
        tokens_ordered(ts),
        0 <= k <= ts.len(),
    ensures
        tokens_total(tokens_with_trivia(ts, source_len).take(k)) == total_upto(ts, source_len, k),
        total_upto(ts, source_len, k) <= u32::MAX,
    decreases k,
{
    let all = tokens_with_trivia(ts, source_len);
    if k > 0 {
        lemma_total_with_trivia(ts, source_len, k - 1);
        assert(all.take(k).drop_last() =~= all.take(k - 1));
        if k > 1 {
            assert(span_end(ts[k - 2]) <= ts[k - 1].2);
        }
        assert(span_end(ts[k - 1]) <= u32::MAX);
    } else {
        assert(all.take(k) =~= Seq::<GreenToken>::empty());
    }
}

/// A builder for constructing [`GreenNode`] trees from a stream of
/// [`GreenEvent`]s.
///
/// # Checkpoint / Rewind
///
/// The builder supports checkpoint-based rollback via [`GreenBuilder::checkpoint`]
/// and [`GreenBuilder::rewind`]: before trying a parser alternative, the
/// builder's event count is saved as a checkpoint; if the alternative fails,
/// the builder is rewound to the saved length.
#[derive(Debug, Default, Clone)]
pub struct GreenBuilder {
    events: Vec<GreenEvent>,
    source_len: u32,
}

impl GreenBuilder {
    /// The events recorded so far.
    pub closed spec fn spec_events(&self) -> Seq<GreenEvent> {
        self.events@
    }

    /// The length of the source text the tokens come from.
    pub closed spec fn spec_source_len(&self) -> u32 {
        self.source_len
    }

    /// Create a new empty builder.
    pub fn new() -> (r: Self)
        ensures
            r.spec_events() == Seq::<GreenEvent>::empty(),
            r.spec_source_len() == 0,
    {
        GreenBuilder { events: Vec::new(), source_len: 0 }
    }

    /// Record the length of the source text, so that trivia after the last
    /// token is kept by [`GreenBuilder::build`].
    pub fn set_source_len(&mut self, len: u32)
        ensures
            final(self).spec_events() == old(self).spec_events(),
            final(self).spec_source_len() == len,
    {
        self.source_len = len;
    }

    /// Start a new interior node.
    pub fn start_node(&mut self, kind: SyntaxKind)
        ensures
            final(self).spec_events() == old(self).spec_events().push(GreenEvent::StartNode { kind }),
            final(self).spec_source_len() == old(self).spec_source_len(),
    {
        self.events.push(GreenEvent::StartNode { kind });
    }

    /// Finish the current interior node. A node must be open: a
    /// `start_node` event must be left unmatched.
    pub fn finish_node(&mut self)
        requires
            events_depth(old(self).spec_events()) >= 1,
        ensures
            final(self).spec_events() == old(self).spec_events().push(GreenEvent::FinishNode),
            final(self).spec_source_len() == old(self).spec_source_len(),
    {
        self.events.push(GreenEvent::FinishNode);
    }

    /// Add a token leaf at the given absolute source position.
    /// Trivia is computed during [`GreenBuilder::build`] from gaps between adjacent tokens.
    pub fn token(&mut self, kind: SyntaxKind, len: u32, start: u32)
        ensures
            final(self).spec_events() == old(self).spec_events().push(GreenEvent::Token { kind, len, start }),
            final(self).spec_source_len() == old(self).spec_source_len(),
    {
        self.events.push(GreenEvent::Token { kind, len, start });
    }

    /// Place a mark at the current position. The mark can later be replaced
    /// with a `StartNode` by calling [`GreenBuilder::wrap_node`].
    pub fn mark(&mut self)
        ensures
            final(self).spec_events() == old(self).spec_events().push(GreenEvent::Mark),
            final(self).spec_source_len() == old(self).spec_source_len(),
    {
        self.events.push(GreenEvent::Mark);
    }

    /// Replace the most recent `Mark` event with a `StartNode` of the
    /// given kind, and append a `FinishNode` at the current position.
    ///
    /// This retroactively wraps all events emitted between the mark and this
    /// call into a node of the given kind.
    pub fn wrap_node(&mut self, kind: SyntaxKind)
        requires
            last_mark(old(self).spec_events()) >= 0,
        ensures
            final(self).spec_events() == old(self).spec_events().update(
                last_mark(old(self).spec_events()),
                GreenEvent::StartNode { kind },
            ).push(GreenEvent::FinishNode),
            final(self).spec_source_len() == old(self).spec_source_len(),
    {
        let ghost es = self.events@;
        let mut i: usize = self.events.len();
        assert(es.take(i as int) =~= es);
        while i > 0
            invariant
                0 <= i <= es.len(),
                self.events@ == es,
                self.source_len == old(self).source_len,
                es == old(self).events@,
                last_mark(es) == last_mark(es.take(i as int)),
            decreases i,
        {
            proof {
                assert(es.take(i as int).drop_last() =~= es.take(i - 1));
                assert(es.take(i as int).last() == es[i - 1]);
            }
            if matches!(self.events[i - 1], GreenEvent::Mark) {
                self.events.set(i - 1, GreenEvent::StartNode { kind });
                self.events.push(GreenEvent::FinishNode);
                return;
            }
            i = i - 1;
        }
        assert(false);
    }

    /// Consume the builder and produce a [`GreenNode`] tree from the recorded events.
    ///
    /// The root is the node opened by the first event; each token becomes a
    /// leaf whose leading trivia is the gap since the previous token, and the
    /// last token also keeps the gap up to the end of the source. Marks that
    /// were never wrapped are skipped, wherever they stand.
    pub fn build(self) -> (r: GreenNode)
        requires
            well_formed_events(unmarked(self.spec_events())),
            leaves_fit(token_events(self.spec_events()), self.spec_source_len()),
        ensures
            built_from_events(r, unmarked(self.spec_events()), self.spec_source_len()),
            node_outline(r) == events_outline(self.spec_events()),
            r.leaves() == tokens_with_trivia(token_events(self.spec_events()), self.spec_source_len()),
    {
        let ghost es = self.events@;
        let mut kept: Vec<GreenEvent> = Vec::new();
        let mut i: usize = 0;
        proof {
            assert(es.take(0) =~= Seq::<GreenEvent>::empty());
        }
        while i < self.events.len()
            invariant
                es == self.events@,
                0 <= i <= es.len(),
                kept@ == unmarked(es.take(i as int)),
            decreases es.len() - i,
        {
            proof {
                assert(es.take(i + 1).drop_last() =~= es.take(i as int));
                assert(es.take(i + 1).last() == es[i as int]);
            }
            let e = self.events[i];
            if !matches!(e, GreenEvent::Mark) {
                kept.push(e);
            }
            i = i + 1;
        }
        proof {
            assert(es.take(i as int) =~= es);
            lemma_unmarked(es);
        }
        build_events(kept, self.source_len)
    }

    /// Open a node of the given kind at a checkpoint, so that it encloses
    /// every event recorded since; close it later with
    /// [`GreenBuilder::finish_node`].
    pub fn start_node_at(&mut self, checkpoint: usize, kind: SyntaxKind)
        requires
            checkpoint <= old(self).spec_events().len(),
        ensures
            final(self).spec_events() == old(self).spec_events().insert(
                checkpoint as int,
                GreenEvent::StartNode { kind },
            ),
            final(self).spec_source_len() == old(self).spec_source_len(),
    {
        self.events.insert(checkpoint, GreenEvent::StartNode { kind });
    }

    /// Return a checkpoint representing the current state: the number of
    /// recorded events. Call [`GreenBuilder::rewind`] to restore it.
    pub fn checkpoint(&self) -> (r: usize)
        ensures
            r == self.spec_events().len(),
    {
        self.events.len()
    }

    /// Rewinding to a checkpoint taken earlier discards exactly the events
    /// recorded since: the builder holds the events it held at the checkpoint.
    pub proof fn lemma_rewind_to_checkpoint(at_checkpoint: Seq<GreenEvent>, since: Seq<GreenEvent>)
        ensures
            ({
                let now = at_checkpoint + since;
                let checkpoint = at_checkpoint.len();
                (if checkpoint < now.len() {
                    now.take(checkpoint as int)
                } else {
                    now
                }) == at_checkpoint
            }),
    {
        assert((at_checkpoint + since).take(at_checkpoint.len() as int) =~= at_checkpoint);
        assert(at_checkpoint + Seq::<GreenEvent>::empty() =~= at_checkpoint);
    }

    /// Rewind the builder to a previous checkpoint, discarding all events
    /// emitted after it.
    pub fn rewind(&mut self, checkpoint: usize)
        ensures
            final(self).spec_events() == if checkpoint < old(self).spec_events().len() {
                old(self).spec_events().take(checkpoint as int)
            } else {
                old(self).spec_events()
            },
            final(self).spec_source_len() == old(self).spec_source_len(),
    {
        self.events.truncate(checkpoint);
    }
}

/// Replay well-formed events without marks into a green tree (see
/// [`GreenBuilder::build`]).
fn build_events(events: Vec<GreenEvent>, sl: u32) -> (r: GreenNode)
    requires
        well_formed_events(events@),
        leaves_fit(token_events(events@), sl),
    ensures
        built_from_events(r, events@, sl),
{
    let ghost es = events@;
    let ghost ts = token_events(es);
    let n = events.len();
    // Count the tokens, so that the last one can take the trailing trivia.
    let mut ntok: usize = 0;
    let mut i: usize = 0;
    while i < n
        invariant
            n == es.len(),
            events@ == es,
            0 <= i <= n,
            ntok == token_events(es.take(i as int)).len(),
            ntok <= i,
        decreases n - i,
    {
        proof {
            assert(es.take(i + 1).drop_last() =~= es.take(i as int));
        }
        if matches!(events[i], GreenEvent::Token { .. }) {
            ntok = ntok + 1;
        }
        i = i + 1;
    }
    proof {
        assert(es.take(n as int) =~= es);
    }
    let mut stack: Vec<Frame> = Vec::new();
    let mut current = Frame { kind: SyntaxKind::Error, children: Vec::new() };
    let mut root: Option<GreenNode> = None;
    let mut k: usize = 0;
    let mut prev: u64 = 0;
    proof {
        assert(es.take(0) =~= Seq::<GreenEvent>::empty());
        assert(ts.take(0) =~= Seq::<(SyntaxKind, u32, u32)>::empty());
        assert(tokens_with_trivia(ts, sl).take(0) =~= Seq::<GreenToken>::empty());
        assert(leaves_of(current.children@) =~= Seq::<GreenToken>::empty());
        assert(frames_leaves(stack@) + leaves_of(current.children@) =~= Seq::<GreenToken>::empty());
    }
    i = 0;
    while i < n
        invariant
            n == es.len(),
            events@ == es,
            ts == token_events(es),
            ntok == ts.len(),
            well_formed_events(es),
            leaves_fit(ts, sl),
            building(stack@, current, root, es, sl, i as int, k as int, prev),
        decreases n - i,
    {
        match events[i] {
            GreenEvent::StartNode { kind } => {
                start_frame(&mut stack, &mut current, kind, Ghost(es), Ghost(sl), Ghost(i as int), Ghost(k as int), Ghost(root), Ghost(prev));
            },
            GreenEvent::FinishNode => {
                finish_frame(&mut stack, &mut current, &mut root, Ghost(es), Ghost(sl), Ghost(i as int), Ghost(k as int), Ghost(prev));
            },
            GreenEvent::Token { kind, len, start } => {
                prev = add_token(&mut current, kind, len, start, k, prev, ntok, sl, Ghost(stack@), Ghost(es), Ghost(i as int), Ghost(root));
                k = k + 1;
            },
            GreenEvent::Mark => {
                proof {
                    lemma_mark_step(stack@, current, root, es, sl, i as int, k as int, prev);
                }
            },
        }
        i = i + 1;
    }
    match root {
        Some(r) => r,
        None => {
            assert(false);
            GreenNode::empty(SyntaxKind::Error)
        },
    }
}

} // verus!
