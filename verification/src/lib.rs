//! A C23 grammar library: a lexer, a lossless parser and red-green syntax trees.
//!
//! [`parse_tree`] turns C source text into a [`SyntaxTree`] that keeps every
//! byte of the source: each token carries the trivia (whitespace, comments,
//! line directives) before it, and [`print_lossless`] gives the source back.

pub mod green;
pub mod lexer;
pub mod parser;
pub mod print;
pub mod red;
pub mod span;
pub mod syntax;
pub mod token;
pub mod value;
pub mod visit;

pub use green::GreenNode;
pub use lexer::lex;
pub use red::{print_lossless, SyntaxNode, SyntaxTree};
pub use syntax::SyntaxKind;
pub use token::{
    Attribute, AttributeSpecifier, AttributeToken, BalancedToken, BalancedTokenSequence, CharacterConstant,
    Constant, EncodingPrefix, FloatingConstant, FloatingSuffix, Identifier, IntegerConstant, IntegerSuffix,
    PredefinedConstant, Punctuator, StringLiteral, StringLiterals,
};

use vstd::prelude::*;
use vstd::string::StringSliceAdditionalSpecFns;

use crate::green::{
    declarations_at_top, lemma_declarations_at_top, child_leaves, child_size, child_wf, leaves_of, lemma_size_of_prefix, lemma_total_with_trivia, size_of,
    sum_lens, tokens_ordered, tokens_total, tokens_with_trivia, total_upto, wf_all, GreenChild,
    GreenChildren, GreenToken, built_from_events, top_level_ok, token_events, unmarked, well_formed_events, GreenEvent,
};
use crate::parser::top_items_ok;
use crate::lexer::{
    contexts_for, directives_upto, lemma_ascii_edge_boundary, lemma_lex_from_edges, lemma_lex_within,
    lex_bytes, lex_from, lex_spec, markers, tokens_within, triples, RawToken,
};
use crate::red::{
    carried_leaves, flat, flat_info, leaf_spans, leaves_in_source, lossless_bytes, placed, places_of_infos,
    read_back_all, reads_back, subtree_leaves, token_indices, NONE,
};
use crate::span::{ContextMapping, Spanned};
use crate::token::carries;
use crate::value::token_reads;

verus! {

/// The tokens of `src`, each with the trivia that precedes it; the last one
/// also carries the trivia after it.
pub open spec fn source_tokens(src: Seq<u8>) -> Seq<GreenToken> {
    tokens_with_trivia(triples(leaf_tokens(src)), src.len() as u32)
}

/// The leaves of a tree of `src`: its tokens or, where `src` holds trivia
/// alone, one [`SyntaxKind::Whitespace`] leaf that covers all of it, so that
/// the tree keeps every byte.
pub open spec fn leaf_tokens(src: Seq<u8>) -> Seq<RawToken> {
    if lex_spec(src).len() == 0 && src.len() > 0 {
        seq![trivia_token(src.len() as u32)]
    } else {
        lex_spec(src)
    }
}

/// A leaf of kind [`SyntaxKind::Whitespace`] over the first `n` bytes.
pub open spec fn trivia_token(n: u32) -> RawToken {
    RawToken { kind: SyntaxKind::Whitespace, start: 0, len: n }
}

/// The leaves of a source lie within it, in order, and start and end where
/// characters do.
proof fn lemma_leaf_tokens(src: Seq<u8>)
    requires
        src.len() < u32::MAX - 1,
    ensures
        tokens_within(leaf_tokens(src), src.len() as int),
        leaf_tokens(src).len() == 0 <==> src.len() == 0,
        forall|k: int|
            0 <= k < leaf_tokens(src).len() ==> {
                let t = #[trigger] leaf_tokens(src)[k];
                &&& (t.start == 0 || crate::lexer::ascii_edge(src, t.start as int))
                &&& crate::lexer::ascii_edge(src, t.start + t.len)
            },
{
    lemma_lex_within(src);
    lemma_lex_from_edges(src, 0);
    if lex_spec(src).len() > 0 {
        let t = lex_spec(src)[0];
        assert(t.len >= 1 && t.start + t.len <= src.len());
    }
}

/// `tree` is a syntax tree of `src`: the pre-order listing of a well-formed
/// green tree rooted at a translation unit whose leaves are the tokens of
/// `src`, and in whose root stand external declarations and error nodes
/// (see [`root_shape`]).
pub open spec fn parsed_from(tree: SyntaxTree, src: Seq<u8>) -> bool {
    exists|g: GreenNode|
        #![trigger flat(g, 0)]
        built_from(tree, g, src)
}

/// What stands directly in the root `g`: external declarations and error
/// nodes, or, where the whole tree would have too many nodes to list, the
/// tokens themselves.
pub open spec fn root_shape(g: GreenNode) -> bool {
    ||| declarations_at_top(g)
    ||| forall|i: int| 0 <= i < g.spec_children().len() ==> (#[trigger] g.spec_children()[i]) is Token
}

/// `tree` lists the green tree `g`, a well-formed translation unit whose
/// leaves are the tokens of `src`.
pub open spec fn built_from(tree: SyntaxTree, g: GreenNode, src: Seq<u8>) -> bool {
    &&& g.wf()
    &&& g.kind == SyntaxKind::TranslationUnit
    &&& root_shape(g)
    &&& g.leaves() == source_tokens(src)
    &&& g.size() < NONE
    &&& tree@ == flat_info(g, 0, 0, NONE, NONE)
    &&& tree.places() == flat(g, 0)
}

/// The events `es` are a parse of `src` with the typedef names `names`:
/// one translation unit holding every token of the source in order, in
/// whose root stand external declarations and error nodes. An external
/// declaration holds a declaration or a function definition first; when
/// its first token is one of the names (and no keyword), the declaration
/// specifiers come first in that, and a type specifier holding the name
/// first in them. An error node holds one token, which cannot start a
/// declaration (a listed name among those that can).
pub open spec fn parse_events(es: Seq<GreenEvent>, src: Seq<u8>, names: Seq<Seq<u8>>) -> bool {
    &&& well_formed_events(es)
    &&& es[0] == (GreenEvent::StartNode { kind: SyntaxKind::TranslationUnit })
    &&& token_events(es) == triples(lex_spec(src))
    &&& top_level_ok(es)
    &&& top_items_ok(es, src, names)
}

/// `tree` is the tree of a parse of `src` with the typedef names `names`:
/// the tree built from events that are such a parse, or, where that tree
/// has too many nodes to index, a flat tree of its tokens; a source of
/// trivia alone has no parse.
pub open spec fn parsed_with(tree: SyntaxTree, src: Seq<u8>, names: Seq<Seq<u8>>) -> bool {
    ||| lex_spec(src).len() == 0 && src.len() > 0
    ||| exists|es: Seq<GreenEvent>, g: GreenNode|
        #![trigger parse_events(es, src, names), built_from_events(g, unmarked(es), src.len() as u32)]
        {
            &&& parse_events(es, src, names)
            &&& built_from_events(g, unmarked(es), src.len() as u32)
            &&& (tree@ == flat_info(g, 0, 0, NONE, NONE) || g.size() >= NONE)
        }
}

/// The typedef names every translation unit knows (see
/// [`builtin_typedef_names`]).
pub open spec fn builtin_typedefs() -> Seq<Seq<u8>> {
    seq![
        "__builtin_va_list".spec_bytes(),
        "__uint128_t".spec_bytes(),
        "_Float16".spec_bytes(),
        "_Float128".spec_bytes(),
        "_Bool".spec_bytes(),
    ]
}

/// The bytes of each of the names `ts`.
pub open spec fn name_bytes(ts: Seq<&str>) -> Seq<Seq<u8>> {
    ts.map_values(|t: &str| t.spec_bytes())
}

/// Typedef names every translation unit knows: `__builtin_va_list`,
/// `__uint128_t`, `_Float16`, `_Float128` and `_Bool`, in this order.
fn builtin_typedef_names() -> (r: Vec<Vec<u8>>)
    ensures
        r@.len() == 5,
        r@[0]@ == "__builtin_va_list".spec_bytes(),
        r@[1]@ == "__uint128_t".spec_bytes(),
        r@[2]@ == "_Float16".spec_bytes(),
        r@[3]@ == "_Float128".spec_bytes(),
        r@[4]@ == "_Bool".spec_bytes(),
{
    let mut names: Vec<Vec<u8>> = Vec::new();
    names.push(bytes_of("__builtin_va_list"));
    names.push(bytes_of("__uint128_t"));
    names.push(bytes_of("_Float16"));
    names.push(bytes_of("_Float128"));
    names.push(bytes_of("_Bool"));
    names
}

/// The bytes of a string.
fn bytes_of(s: &str) -> (r: Vec<u8>)
    ensures
        r@ == s.spec_bytes(),
{
    let b = s.as_bytes();
    let mut v: Vec<u8> = Vec::new();
    let mut i: usize = 0;
    while i < b.len()
        invariant
            i <= b@.len(),
            v@ == b@.take(i as int),
        decreases b@.len() - i,
    {
        v.push(b[i]);
        i = i + 1;
        assert(v@ =~= b@.take(i as int));
    }
    assert(b@.take(i as int) =~= b@);
    v
}

/// The number of red nodes of `g`, or `cap` when it has at least `cap`.
fn capped_size(g: &GreenNode, cap: u64) -> (r: u64)
    ensures
        r == (if g.size() < cap {
            g.size()
        } else {
            cap as nat
        }),
    decreases *g,
{
    if cap <= 1 {
        return cap;
    }
    match &g.children {
        GreenChildren::Node { children } => {
            let mut total: u64 = 1;
            let mut i: usize = 0;
            while i < children.len()
                invariant
                    g.children is Node,
                    g.children->children == *children,
                    i <= children@.len(),
                    total == 1 + size_of(children@.take(i as int)),
                    total < cap,
                decreases children@.len() - i,
            {
                proof {
                    assert(children@.take(i + 1).drop_last() =~= children@.take(i as int));
                    assert(decreases_to!(*g => g.children));
                    assert(decreases_to!(g.children => g.children->children));
                    assert(decreases_to!(*children => children[i as int]));
                }
                let c = capped_child_size(&children[i], cap - total);
                if c >= cap - total {
                    proof {
                        lemma_size_of_prefix(children@, i + 1);
                    }
                    return cap;
                }
                total = total + c;
                i = i + 1;
            }
            proof {
                assert(children@.take(i as int) =~= children@);
            }
            total
        },
        _ => 1,
    }
}

fn capped_child_size(c: &GreenChild, cap: u64) -> (r: u64)
    ensures
        r == (if child_size(*c) < cap {
            child_size(*c)
        } else {
            cap as nat
        }),
    decreases *c,
{
    match c {
        GreenChild::Token(_) => {
            if cap <= 1 {
                cap
            } else {
                1
            }
        },
        GreenChild::Node(n) => {
            assert(decreases_to!(*c => *n));
            capped_size(n, cap)
        },
    }
}

/// There are no more tokens than bytes.
proof fn lemma_token_count(ts: Seq<RawToken>, n: int)
    requires
        tokens_within(ts, n),
        n >= 0,
    ensures
        ts.len() <= n,
{
    if ts.len() > 0 {
        let last = ts.len() - 1;
        lemma_token_start(ts, n, last);
        assert(ts[last].len >= 1 && ts[last].start + ts[last].len <= n);
        assert(ts.len() == last + 1);
        assert(last + 1 <= ts[last].start + ts[last].len);
    }
}

proof fn lemma_token_start(ts: Seq<RawToken>, n: int, i: int)
    requires
        tokens_within(ts, n),
        0 <= i < ts.len(),
    ensures
        ts[i].start >= i,
    decreases i,
{
    if i > 0 {
        lemma_token_start(ts, n, i - 1);
        assert(ts[i - 1].len >= 1);
    }
}

/// Tokens within a source shorter than `u32::MAX` are ordered as the
/// builder needs them.
proof fn lemma_tokens_ordered(ts: Seq<RawToken>, n: int)
    requires
        tokens_within(ts, n),
        n < u32::MAX,
    ensures
        tokens_ordered(triples(ts)),
{
    let t = triples(ts);
    assert forall|i: int| 0 <= i < t.len() implies #[trigger] crate::green::span_end(t[i])
        <= u32::MAX by {
        assert(ts[i].len >= 1);
    }
    assert forall|i: int| 0 < i < t.len() implies crate::green::span_end(t[i - 1]) <= (
    #[trigger] t[i]).2 by {
        assert(ts[i].start >= ts[i - 1].start + ts[i - 1].len);
    }
}

/// Appending a token to a run of children.
proof fn lemma_push_token(cs: Seq<GreenChild>, t: GreenToken)
    ensures
        leaves_of(cs.push(GreenChild::Token(t))) == leaves_of(cs).push(t),
        wf_all(cs.push(GreenChild::Token(t))) == wf_all(cs),
        size_of(cs.push(GreenChild::Token(t))) == size_of(cs) + 1,
        sum_lens(cs.push(GreenChild::Token(t))) == sum_lens(cs) + t.spec_total_len(),
{
    let c = GreenChild::Token(t);
    let d = cs.push(c);
    assert(d.drop_last() =~= cs);
    assert(d.last() == c);
    assert(d.len() > 0);
    assert(wf_all(d) == (wf_all(d.drop_last()) && child_wf(d.last())));
    assert(size_of(d) == size_of(d.drop_last()) + child_size(d.last()));
    assert(child_leaves(c) == seq![t]);
    assert(leaves_of(cs) + seq![t] =~= leaves_of(cs).push(t));
}

/// The green token of the `i`-th token, as the flat tree builds it.
proof fn lemma_flat_token(toks: Seq<RawToken>, n: u32, i: int, prev: u32)
    requires
        tokens_within(toks, n as int),
        n < u32::MAX,
        0 <= i < toks.len(),
        prev == crate::green::prev_end(triples(toks), i),
    ensures
        prev <= toks[i].start,
        toks[i].start + toks[i].len <= n,
        tokens_with_trivia(triples(toks), n)[i] == (GreenToken {
            kind: toks[i].kind,
            len: toks[i].len,
            leading_trivia: (toks[i].start - prev) as u32,
            trailing_trivia: if i + 1 == toks.len() {
                (n - (toks[i].start + toks[i].len)) as u32
            } else {
                0
            },
        }),
{
    if i > 0 {
        assert(toks[i - 1].start + toks[i - 1].len <= toks[i].start);
    }
    assert(toks[i].len >= 1);
}

/// A translation unit whose children are the tokens themselves, each with
/// its trivia.
fn flat_green(n: u32, toks: &Vec<RawToken>) -> (r: GreenNode)
    requires
        tokens_within(toks@, n as int),
        n < u32::MAX - 1,
    ensures
        r.wf(),
        r.kind == SyntaxKind::TranslationUnit,
        r.leaves() == tokens_with_trivia(triples(toks@), n),
        r.size() < NONE,
        forall|i: int| 0 <= i < r.spec_children().len() ==> (#[trigger] r.spec_children()[i]) is Token,
{
    let ghost ts = triples(toks@);
    let ghost all = tokens_with_trivia(ts, n);
    proof {
        lemma_token_count(toks@, n as int);
    }
    let mut children: Vec<GreenChild> = Vec::new();
    let mut prev_end: u32 = 0;
    let mut i: usize = 0;
    proof {
        assert(all.take(0) =~= Seq::<GreenToken>::empty());
        assert(leaves_of(children@) =~= Seq::<GreenToken>::empty());
    }
    while i < toks.len()
        invariant
            ts == triples(toks@),
            all == tokens_with_trivia(ts, n),
            tokens_within(toks@, n as int),
            n < u32::MAX - 1,
            i <= toks@.len(),
            prev_end == crate::green::prev_end(ts, i as int),
            leaves_of(children@) == all.take(i as int),
            wf_all(children@),
            size_of(children@) == i,
            sum_lens(children@) == tokens_total(all.take(i as int)),
            forall|j: int| 0 <= j < children@.len() ==> (#[trigger] children@[j]) is Token,
        decreases toks@.len() - i,
    {
        let t = toks[i];
        proof {
            lemma_flat_token(toks@, n, i as int, prev_end);
        }
        let lead = t.start - prev_end;
        let end = t.start + t.len;
        let trail = if i + 1 == toks.len() {
            n - end
        } else {
            0
        };
        let tok = GreenToken { kind: t.kind, len: t.len, leading_trivia: lead, trailing_trivia: trail };
        proof {
            lemma_push_token(children@, tok);
            assert(all.take(i + 1) =~= all.take(i as int).push(tok));
            assert(all.take(i + 1).drop_last() =~= all.take(i as int));
        }
        children.push(GreenChild::Token(tok));
        prev_end = end;
        i = i + 1;
    }
    proof {
        lemma_tokens_ordered(toks@, n as int);
        lemma_total_with_trivia(ts, n, i as int);
        assert(all.take(i as int) =~= all);
    }
    let r = GreenNode::new(SyntaxKind::TranslationUnit, children);
    proof {
        if i == 0 {
            assert(r.leaves() =~= all);
        }
    }
    r
}

/// Where the `k`-th leaf of a parsed source lies: it ends within the source,
/// and starts, ends and has its text start and end on character boundaries.
#[verifier::rlimit(40)]
proof fn lemma_leaf_bounds(src: Seq<u8>, k: int)
    requires
        vstd::utf8::valid_utf8(src),
        src.len() < u32::MAX - 1,
        0 <= k < leaf_tokens(src).len(),
    ensures
        ({
            let tr = triples(leaf_tokens(src));
            let n = src.len() as u32;
            let o = total_upto(tr, n, k);
            let t = crate::green::token_with_trivia(tr, n, k);
            &&& 0 <= o
            &&& o + t.spec_total_len() <= src.len()
            &&& vstd::utf8::is_char_boundary(src, o)
            &&& vstd::utf8::is_char_boundary(src, o + t.spec_total_len())
            &&& vstd::utf8::is_char_boundary(src, o + t.leading_trivia)
            &&& vstd::utf8::is_char_boundary(src, o + t.leading_trivia + t.len)
            &&& source_tokens(src)[k] == t
            &&& tokens_total(source_tokens(src).take(k)) == o
            &&& o + t.leading_trivia == leaf_tokens(src)[k].start
            &&& t.len == leaf_tokens(src)[k].len
            &&& t.kind == leaf_tokens(src)[k].kind
        }),
{
    let ts = leaf_tokens(src);
    let tr = triples(ts);
    let n = src.len() as u32;
    lemma_leaf_tokens(src);
    lemma_tokens_ordered(ts, n as int);
    lemma_total_with_trivia(tr, n, k);
    let tk = ts[k];
    assert(tk.len >= 1 && tk.start + tk.len <= src.len());
    assert(tr[k] == (tk.kind, tk.len, tk.start));
    let o = total_upto(tr, n, k);
    let t = crate::green::token_with_trivia(tr, n, k);
    lemma_ascii_edge_boundary(src, tk.start as int);
    lemma_ascii_edge_boundary(src, tk.start + tk.len);
    lemma_ascii_edge_boundary(src, src.len() as int);
    lemma_ascii_edge_boundary(src, 0);
    if k > 0 {
        let tp = ts[k - 1];
        assert(tp.start + tp.len <= tk.start);
        assert(tr[k - 1] == (tp.kind, tp.len, tp.start));
        assert(o == tp.start + tp.len);
        lemma_ascii_edge_boundary(src, tp.start + tp.len);
    } else {
        assert(o == 0);
    }
    assert(o + t.leading_trivia == tk.start);
    assert(o + t.leading_trivia + t.len == tk.start + tk.len);
    if k == ts.len() - 1 {
        assert(o + t.spec_total_len() == src.len());
    } else {
        assert(o + t.spec_total_len() == tk.start + tk.len);
    }
}

/// The leaves of the listing of a green tree parsed from `src` are the
/// tokens of `src`, placed one after another from its start.
proof fn lemma_parsed_leaf_spans(g: GreenNode, src: Seq<u8>)
    requires
        g.wf(),
        g.leaves() == source_tokens(src),
        src.len() < u32::MAX - 1,
    ensures
        crate::red::leaf_spans(flat(g, 0)) == crate::red::placed(source_tokens(src), 0),
        tokens_total(source_tokens(src)) <= src.len(),
        tokens_total(source_tokens(src)) == src.len(),
{
    let ts = leaf_tokens(src);
    let tr = triples(ts);
    let n = src.len() as u32;
    let ls = tokens_with_trivia(tr, n);
    lemma_leaf_tokens(src);
    lemma_tokens_ordered(ts, n as int);
    lemma_total_with_trivia(tr, n, ls.len() as int);
    assert(ls.take(ls.len() as int) =~= ls);
    if ls.len() == 0 {
        assert(ls =~= Seq::<GreenToken>::empty());
    }
    crate::green::lemma_wf_total(g);
    crate::red::lemma_flat_leaves(g, 0);
}

/// A leaf of the listing of a tree parsed from `src` lies in `src`, on
/// character boundaries.
proof fn lemma_parsed_leaf_in_source(g: GreenNode, src: Seq<u8>, i: int)
    requires
        g.wf(),
        g.leaves() == source_tokens(src),
        vstd::utf8::valid_utf8(src),
        src.len() < u32::MAX - 1,
        0 <= i < flat(g, 0).len(),
        flat(g, 0)[i].token is Some,
    ensures
        ({
            let p = flat(g, 0)[i];
            let t = p.token->0;
            &&& p.offset + t.spec_total_len() <= src.len()
            &&& vstd::utf8::is_char_boundary(src, p.offset as int)
            &&& vstd::utf8::is_char_boundary(src, p.offset + t.spec_total_len())
            &&& vstd::utf8::is_char_boundary(src, p.offset + t.leading_trivia)
            &&& vstd::utf8::is_char_boundary(src, p.offset + t.leading_trivia + t.len)
        }),
{
    let ps = flat(g, 0);
    let ts = leaf_tokens(src);
    let tr = triples(ts);
    let n = src.len() as u32;
    let ls = tokens_with_trivia(tr, n);
    lemma_parsed_leaf_spans(g, src);
    lemma_leaf_tokens(src);
    lemma_tokens_ordered(ts, n as int);
    crate::red::lemma_leaf_spans_member(ps, i);
    let sp = crate::red::leaf_spans(ps);
    let k = choose|k: int| 0 <= k < sp.len() && #[trigger] sp[k] == (ps[i].offset as int, ps[i].token->0);
    assert(sp[k] == crate::red::placed(ls, 0)[k]);
    lemma_total_with_trivia(tr, n, k);
    lemma_leaf_bounds(src, k);
}

/// Parsing keeps every byte: the leaves of a tree parsed from `src` lie in
/// `src` on character boundaries, and together they cover exactly `src`.
pub proof fn lemma_parsed_lossless(tree: SyntaxTree, src: Seq<u8>)
    requires
        parsed_from(tree, src),
        vstd::utf8::valid_utf8(src),
        src.len() < u32::MAX - 1,
    ensures
        leaves_in_source(tree.places(), src),
        lossless_bytes(tree.places(), src) == src,
{
    let g = choose|g: GreenNode| #![trigger flat(g, 0)] built_from(tree, g, src);
    let ls = source_tokens(src);
    let ps = tree.places();
    lemma_parsed_leaf_spans(g, src);
    crate::red::lemma_lossless_spans(ps, src);
    crate::red::lemma_span_bytes_tile(ls, src, ls.len() as int);
    assert(ls.take(ls.len() as int) =~= ls);
    assert(crate::red::placed(ls, 0).take(ls.len() as int) =~= crate::red::placed(ls, 0));
    assert(src.subrange(0, src.len() as int) =~= src);
    assert forall|i: int|
        0 <= i < ps.len() && (#[trigger] ps[i]).token is Some implies {
        let t = ps[i].token->0;
        &&& ps[i].offset + t.spec_total_len() <= src.len()
        &&& vstd::utf8::is_char_boundary(src, ps[i].offset as int)
        &&& vstd::utf8::is_char_boundary(src, ps[i].offset + t.spec_total_len())
        &&& vstd::utf8::is_char_boundary(src, ps[i].offset + t.leading_trivia)
        &&& vstd::utf8::is_char_boundary(src, ps[i].offset + t.leading_trivia + t.len)
    } by {
        lemma_parsed_leaf_in_source(g, src, i);
    }
}

/// Printing a parsed source gives the source back: when `printed` encodes
/// to the bytes that the leaves of `tree` cover (as [`print_lossless`]
/// guarantees), it is the source text itself.
pub proof fn lemma_round_trip(source: &str, tree: SyntaxTree, printed: Seq<char>)
    requires
        parsed_from(tree, source.spec_bytes()),
        source.spec_bytes().len() < u32::MAX - 1,
        vstd::utf8::encode_utf8(printed) == crate::red::lossless_bytes(
            tree.places(),
            source.spec_bytes(),
        ),
    ensures
        printed == source@,
        crate::red::leaves_in_source(tree.places(), source.spec_bytes()),
{
    vstd::utf8::encode_utf8_valid_utf8(source@);
    lemma_parsed_lossless(tree, source.spec_bytes());
    vstd::utf8::encode_utf8_decode_utf8(printed);
    vstd::utf8::encode_utf8_decode_utf8(source@);
}

/// `ts` reads back the tokens of `src`, one for one and in order: each has
/// the kind and the text of the lexed token, and is spanned by that text in
/// context 0.
pub open spec fn reads_back_source(ts: Seq<Spanned<BalancedToken>>, src: Seq<u8>) -> bool {
    let raw = lex_spec(src);
    &&& ts.len() == raw.len()
    &&& forall|k: int|
        0 <= k < ts.len() ==> {
            let t = raw[k];
            &&& token_reads(
                (#[trigger] ts[k]).value,
                t.kind,
                vstd::utf8::decode_utf8(src.subrange(t.start as int, t.start + t.len)),
            )
            &&& ts[k].span.spec_start() == t.start
            &&& ts[k].span.spec_end() == t.start + t.len
            &&& ts[k].span.spec_context().value() == 0
        }
}

/// Reading a parsed source back from the root of its tree, as
/// [`SyntaxTree::to_token_sequence`] does, gives the tokens of the source:
/// one for each token the lexer finds, in order, with its kind, its text
/// and its position.
pub proof fn lemma_parsed_token_sequence(tree: SyntaxTree, src: Seq<u8>, ts: Seq<Spanned<BalancedToken>>)
    requires
        parsed_from(tree, src),
        vstd::utf8::valid_utf8(src),
        src.len() < u32::MAX - 1,
        read_back_all(ts, tree@, carried_leaves(tree@, subtree_leaves(tree@, 0)), src),
    ensures
        reads_back_source(ts, src),
{
    let g = choose|g: GreenNode| #![trigger flat(g, 0)] built_from(tree, g, src);
    let v = tree@;
    let raw = lex_spec(src);
    let ls = source_tokens(src);
    let ps = places_of_infos(v);
    crate::red::lemma_root_reads_all(tree, g);
    crate::red::lemma_token_indices_spans(v, v.len() as int);
    assert(ps.take(v.len() as int) =~= ps);
    assert(ps =~= tree.places());
    lemma_parsed_leaf_spans(g, src);
    crate::red::lemma_flat_leaf_kinds(g, 0);
    crate::lexer::lemma_raw_tokens(src, 0);
    let ti = token_indices(v, 0, v.len() as int);
    let sp = leaf_spans(ps);
    assert(sp == placed(ls, 0));
    if raw.len() == 0 && src.len() > 0 {
        assert(ls.len() == 1);
        assert(ti.len() == 1);
        let i = ti[0];
        assert(sp[0] == (v[i].place.offset as int, v[i].place.token->0));
        assert(ps[i] == v[i].place);
        lemma_leaf_bounds(src, 0);
        assert(v[i].place.kind == SyntaxKind::Whitespace);
        assert(!carries(SyntaxKind::Whitespace));
        assert(ti.drop_last() =~= Seq::<int>::empty());
        assert(carried_leaves(v, ti.drop_last()) == Seq::<int>::empty());
        assert(ti.last() == i);
        assert(carried_leaves(v, ti) =~= Seq::<int>::empty());
        return;
    }
    assert(leaf_tokens(src) == raw);
    assert(ls.len() == raw.len());
    assert forall|k: int| 0 <= k < ti.len() implies carries(v[#[trigger] ti[k]].place.kind) by {
        let i = ti[k];
        assert(sp[k] == (v[i].place.offset as int, v[i].place.token->0));
        assert(ps[i] == v[i].place);
        assert(v[i].place.kind == ls[k].kind);
        lemma_leaf_bounds(src, k);
        assert(carries(lex_from(src, 0)[k].kind));
    }
    crate::red::lemma_carried_all(v, ti);
    assert forall|k: int| 0 <= k < ts.len() implies {
        let t = raw[k];
        &&& token_reads(
            (#[trigger] ts[k]).value,
            t.kind,
            vstd::utf8::decode_utf8(src.subrange(t.start as int, t.start + t.len)),
        )
        &&& ts[k].span.spec_start() == t.start
        &&& ts[k].span.spec_end() == t.start + t.len
        &&& ts[k].span.spec_context().value() == 0
    } by {
        let i = ti[k];
        assert(sp[k] == (v[i].place.offset as int, v[i].place.token->0));
        assert(ps[i] == v[i].place);
        lemma_leaf_bounds(src, k);
        assert(reads_back(ts[k], v[i].place, src));
    }
}

/// Parse C source code into a lossless [`SyntaxTree`].
///
/// Every token of the source ends up in the tree, in order, together with
/// the trivia around it; use [`print_lossless`] to reconstruct the source.
pub fn parse_tree(source: &str) -> (r: SyntaxTree)
    requires
        source.spec_bytes().len() < u32::MAX - 1,
    ensures
        parsed_from(r, source.spec_bytes()),
        parsed_with(r, source.spec_bytes(), builtin_typedefs()),
{
    let none: &[&str] = &[];
    proof {
        assert(none@.len() == 0);
        assert(builtin_typedefs() + name_bytes(none@) =~= builtin_typedefs());
    }
    parse_tree_with_typedefs(source, none)
}

/// Parse C source code with initial typedef names registered.
#[verifier::rlimit(60)]
pub fn parse_tree_with_typedefs(source: &str, typedefs: &[&str]) -> (r: SyntaxTree)
    requires
        source.spec_bytes().len() < u32::MAX - 1,
    ensures
        parsed_from(r, source.spec_bytes()),
        parsed_with(r, source.spec_bytes(), builtin_typedefs() + name_bytes(typedefs@)),
{
    let b = source.as_bytes();
    let n = b.len() as u32;
    let toks = lex_bytes(b);
    proof {
        lemma_lex_within(b@);
        lemma_tokens_ordered(toks@, n as int);
    }
    if toks.len() == 0 && n > 0 {
        let mut leaves: Vec<RawToken> = Vec::new();
        leaves.push(RawToken { kind: SyntaxKind::Whitespace, start: 0, len: n });
        proof {
            assert(leaves@ =~= leaf_tokens(b@));
        }
        let flat_root = flat_green(n, &leaves);
        let tree = SyntaxTree::new(flat_root);
        proof {
            assert(tree.places() == flat(flat_root, 0));
        }
        return tree;
    }
    let mut names = builtin_typedef_names();
    let ghost all_names = builtin_typedefs() + name_bytes(typedefs@);
    let mut i: usize = 0;
    proof {
        assert(names@.map_values(|v: Vec<u8>| v@) =~= builtin_typedefs() + name_bytes(typedefs@.take(0)));
    }
    while i < typedefs.len()
        invariant
            i <= typedefs@.len(),
            names@.map_values(|v: Vec<u8>| v@) == builtin_typedefs() + name_bytes(typedefs@.take(i as int)),
        decreases typedefs@.len() - i,
    {
        let ghost before = names@;
        names.push(bytes_of(typedefs[i]));
        proof {
            assert(names@ == before.push(names@.last()));
            assert(names@.map_values(|v: Vec<u8>| v@) =~= before.map_values(|v: Vec<u8>| v@).push(
                typedefs@[i as int].spec_bytes(),
            ));
            assert(name_bytes(typedefs@.take(i + 1)) =~= name_bytes(typedefs@.take(i as int)).push(
                typedefs@[i as int].spec_bytes(),
            ));
            assert(builtin_typedefs() + name_bytes(typedefs@.take(i + 1)) =~= (builtin_typedefs() + name_bytes(
                typedefs@.take(i as int),
            )).push(typedefs@[i as int].spec_bytes()));
        }
        i = i + 1;
    }
    proof {
        assert(typedefs@.take(i as int) =~= typedefs@);
    }
    let (builder, toks) = crate::parser::parse(b, toks, names);
    let ghost events = builder.spec_events();
    proof {
        crate::green::lemma_unmarked_well_formed(events);
        crate::green::lemma_unmarked(events);
        let ts = token_events(events);
        lemma_tokens_ordered(toks@, n as int);
        lemma_total_with_trivia(ts, n, ts.len() as int);
        assert(tokens_with_trivia(ts, n).take(ts.len() as int) =~= tokens_with_trivia(ts, n));
        assert(crate::green::leaves_fit(ts, n));
    }
    let green = builder.build();
    proof {
        lemma_declarations_at_top(green, events);
    }
    proof {
        assert(parse_events(events, b@, all_names));
    }
    if capped_size(&green, NONE as u64) < NONE as u64 {
        let tree = SyntaxTree::new(green);
        proof {
            assert(tree.places() == flat(green, 0));
            assert(built_from_events(green, unmarked(events), b@.len() as u32));
        }
        tree
    } else {
        let flat_root = flat_green(n, &toks);
        let tree = SyntaxTree::new(flat_root);
        proof {
            assert(tree.places() == flat(flat_root, 0));
            assert(built_from_events(green, unmarked(events), b@.len() as u32));
        }
        tree
    }
}

/// Parse C source code and return the [`SyntaxTree`] and the
/// [`ContextMapping`] that [`lex`] gives for the source (for
/// [`print_lossless`]): one context for each line marker.
pub fn parse_tree_with_map<'a>(source: &'a str) -> (r: (SyntaxTree, ContextMapping<'a>))
    requires
        source.spec_bytes().len() < i32::MAX - 1,
    ensures
        parsed_from(r.0, source.spec_bytes()),
        parsed_with(r.0, source.spec_bytes(), builtin_typedefs()),
        ({
            let b = source.spec_bytes();
            let all = markers(b, directives_upto(b, 0, (lex_spec(b).len() + 1) as nat));
            &&& r.1.source_text() == source
            &&& r.1.contexts().len() == all.len()
            &&& contexts_for(r.1.contexts(), b, all)
        }),
{
    let (_tokens, map) = lex(source, None);
    proof {
        assert(map.contexts().skip(0) =~= map.contexts());
    }
    let tree = parse_tree(source);
    (tree, map)
}

} // verus!
