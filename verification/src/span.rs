//! Span utilities: source contexts and byte ranges of the source text.

use vstd::prelude::*;

verus! {

/// Source context information for error reporting.
#[derive(Debug, Clone)]
pub struct SourceContext {
    /// The original filename.
    pub filename: String,
    /// The offset from the line numbers in the input code to the original source file.
    pub line_offset: i32,
}

/// Identifies a [`SourceContext`] of a [`ContextMapping`]; negative for none.
#[derive(Clone, Copy, Debug, PartialEq, Eq, Hash, Structural)]
pub struct ContextId(i32);

impl ContextId {
    /// The number behind the identifier.
    pub closed spec fn value(self) -> int {
        self.0 as int
    }

    /// The identifier that refers to no context.
    pub fn none() -> (r: Self)
        ensures
            r.value() == -1,
    {
        ContextId(-1)
    }

    /// The identifier of the context at `index`.
    pub fn from_index(index: usize) -> (r: Self)
        requires
            index <= i32::MAX,
        ensures
            r.value() == index,
    {
        ContextId(index as i32)
    }

    /// The index of the context, or `None` for [`ContextId::none`].
    pub fn idx(self) -> (r: Option<usize>)
        ensures
            self.value() < 0 ==> r is None,
            self.value() >= 0 ==> r == Some(self.value() as usize),
    {
        if self.0 < 0 {
            None
        } else {
            Some(self.0 as usize)
        }
    }
}

/// The source text and the contexts that line directives introduced in it.
#[derive(Clone)]
pub struct ContextMapping<'a> {
    /// The source text.
    pub source: &'a str,
    contexts: Vec<SourceContext>,
}

impl<'a> ContextMapping<'a> {
    /// The contexts inserted so far, in order.
    pub closed spec fn contexts(&self) -> Seq<SourceContext> {
        self.contexts@
    }

    /// The source text of the mapping.
    pub closed spec fn source_text(&self) -> &'a str {
        self.source
    }

    /// Creates a mapping of `source` without contexts.
    pub fn new(source: &'a str) -> (r: Self)
        ensures
            r.source_text() == source,
            r.contexts() == Seq::<SourceContext>::empty(),
    {
        ContextMapping { source, contexts: Vec::new() }
    }

    /// Inserts a new source context and returns its identifier.
    pub fn insert_context(&mut self, context: SourceContext) -> (id: ContextId)
        requires
            old(self).contexts().len() < i32::MAX,
        ensures
            final(self).source_text() == old(self).source_text(),
            final(self).contexts() == old(self).contexts().push(context),
            id.value() == old(self).contexts().len(),
    {
        let id = ContextId(self.contexts.len() as i32);
        self.contexts.push(context);
        id
    }

    /// The number of contexts inserted so far.
    pub fn contexts_len(&self) -> (r: usize)
        ensures
            r == self.contexts().len(),
    {
        self.contexts.len()
    }

    /// The context with the given identifier, if there is one.
    pub fn get(&self, id: ContextId) -> (r: Option<&SourceContext>)
        ensures
            0 <= id.value() < self.contexts().len() ==> r == Some(&self.contexts()[id.value()]),
            !(0 <= id.value() < self.contexts().len()) ==> r is None,
    {
        match id.idx() {
            Some(i) => {
                if i < self.contexts.len() {
                    Some(&self.contexts[i])
                } else {
                    None
                }
            },
            None => None,
        }
    }
}

/// A context inserted into a mapping is the one found under the identifier
/// that the insertion returned, and the contexts inserted before it stay
/// where they were.
pub proof fn lemma_inserted_context_found(
    before: ContextMapping,
    after: ContextMapping,
    context: SourceContext,
    id: ContextId,
)
    requires
        after.contexts() == before.contexts().push(context),
        id.value() == before.contexts().len(),
    ensures
        0 <= id.value() < after.contexts().len(),
        after.contexts()[id.value()] == context,
        forall|k: int| 0 <= k < before.contexts().len() ==> after.contexts()[k] == before.contexts()[k],
{
}

/// A source span: a byte range and the context it belongs to.
#[derive(Clone, Copy, Debug, PartialEq, Eq, Hash, Structural)]
pub struct Span {
    start: usize,
    len: u32,
    ctx_id: ContextId,
}

impl Span {
    /// Where the span starts.
    pub closed spec fn spec_start(self) -> int {
        self.start as int
    }

    /// Where the span ends.
    pub closed spec fn spec_end(self) -> int {
        self.start + self.len
    }

    /// The context of the span.
    pub closed spec fn spec_context(self) -> ContextId {
        self.ctx_id
    }

    /// Create a new span from a range and context ID. A reversed range has
    /// no length, and gives an empty span at its start.
    pub fn new(range: std::ops::Range<usize>, ctx_id: ContextId) -> (r: Self)
        requires
            range.start <= range.end ==> range.end - range.start <= u32::MAX,
        ensures
            r.spec_start() == range.start,
            range.start <= range.end ==> r.spec_end() == range.end,
            range.start > range.end ==> r.spec_end() == range.start,
            r.spec_context() == ctx_id,
    {
        let len: u32 = if range.start <= range.end {
            (range.end - range.start) as u32
        } else {
            0
        };
        Span { start: range.start, len, ctx_id }
    }

    /// Create a new end-of-input span at the given position and context ID.
    pub fn new_eoi(pos: usize, ctx_id: ContextId) -> (r: Self)
        ensures
            r.spec_start() == pos,
            r.spec_end() == pos,
            r.spec_context() == ctx_id,
    {
        Span { start: pos, len: 0, ctx_id }
    }

    /// The first byte of the span.
    pub fn start(&self) -> (r: usize)
        ensures
            r == self.spec_start(),
    {
        self.start
    }

    /// The byte just after the span.
    pub fn end(&self) -> (r: usize)
        requires
            self.spec_end() <= usize::MAX,
        ensures
            r == self.spec_end(),
    {
        self.start + self.len as usize
    }

    /// The context the span belongs to.
    pub fn context(&self) -> (r: ContextId)
        ensures
            r == self.spec_context(),
    {
        self.ctx_id
    }

    /// Get the context and range of this span.
    pub fn at_context<'a, 'b>(self, ctx_map: &'b ContextMapping<'a>) -> (r: (
        Option<&'b SourceContext>,
        std::ops::Range<usize>,
    ))
        requires
            self.spec_end() <= usize::MAX,
        ensures
            r.0 == (if 0 <= self.spec_context().value() < ctx_map.contexts().len() {
                Some(&ctx_map.contexts()[self.spec_context().value()])
            } else {
                None
            }),
            r.1.start == self.spec_start(),
            r.1.end == self.spec_end(),
    {
        let context = ctx_map.get(self.ctx_id);
        (context, self.start..self.start + self.len as usize)
    }
}

impl Default for Span {
    fn default() -> (r: Self)
        ensures
            r.spec_start() == 0,
            r.spec_end() == 0,
            r.spec_context().value() == -1,
    {
        Span { start: 0, len: 0, ctx_id: ContextId(-1) }
    }
}

/// A value with the span it comes from.
#[derive(Debug, Clone, Copy)]
pub struct Spanned<T> {
    /// The value.
    pub value: T,
    /// Where the value comes from.
    pub span: Span,
}

impl<T> Spanned<T> {
    /// Pair a value with its span.
    pub fn new(value: T, span: Span) -> (r: Self)
        ensures
            r.value == value,
            r.span == span,
    {
        Spanned { value, span }
    }

    /// Get references to the value and range separately.
    pub fn as_ref(&self) -> (r: (&T, &Span))
        ensures
            *r.0 == self.value,
            *r.1 == self.span,
    {
        (&self.value, &self.span)
    }
}

} // verus!
