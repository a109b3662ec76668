use vstd::prelude::*;
use vstd::std_specs::cmp::PartialEqSpec;

verus! {

/// Position of an element in the query text.
#[derive(PartialEq, Eq, Structural, Clone, Copy, Debug, Hash, PartialOrd, Ord)]
pub struct Pos {
    /// One-based line number.
    pub line: usize,
    /// One-based column number.
    pub column: usize,
}

impl Pos {
    /// Both coordinates are one-based.
    pub open spec fn wf(self) -> bool {
        self.line >= 1 && self.column >= 1
    }
}

/// The range of source text a node was read from.
#[derive(PartialEq, Eq, Structural, Clone, Copy, Debug)]
pub struct Span {
    pub start: Pos,
    pub end: Pos,
}

/// A node together with the span it was read from.
#[derive(Clone, Copy, Debug)]
pub struct Spanned<T> {
    pub span: Span,
    pub node: T,
}

impl Pos {
    /// `line:column`.
    pub fn pos_string(&self) -> (r: String)
        ensures
            r@ == crate::text::decimal_text(self.line as nat) + seq![':'] + crate::text::decimal_text(
                self.column as nat,
            ),
    {
        let mut s = crate::text::u64_to_string(self.line as u64);
        crate::text::push_str(&mut s, ":");
        let c = crate::text::u64_to_string(self.column as u64);
        crate::text::push_str(&mut s, c.as_str());
        proof { reveal_strlit(":"); }
        s
    }
}

/// Spanned values compare by their nodes alone.
impl<T: PartialEq> PartialEq for Spanned<T> {
    fn eq(&self, other: &Spanned<T>) -> (r: bool) {
        self.node.eq(&other.node)
    }
}

impl<T: PartialEq> vstd::std_specs::cmp::PartialEqSpecImpl for Spanned<T> {
    open spec fn obeys_eq_spec() -> bool {
        <T as PartialEqSpec>::obeys_eq_spec()
    }

    open spec fn eq_spec(&self, other: &Spanned<T>) -> bool {
        <T as PartialEqSpec>::eq_spec(&self.node, &other.node)
    }
}

impl<T> Spanned<T> {
    pub fn new(node: T, span: Span) -> (r: Spanned<T>)
        ensures
            r.node == node,
            r.span == span,
    {
        Spanned { span, node }
    }

    /// Where the node starts.
    pub fn position(&self) -> (r: Pos)
        ensures
            r == self.span.start,
    {
        self.span.start
    }

    #[inline]
    pub fn span(&self) -> (r: Span)
        ensures
            r == self.span,
    {
        self.span
    }

    /// Builds a node of another kind from the whole spanned value, keeping the span.
    #[inline]
    pub fn pack<F: FnOnce(Self) -> R, R>(self, f: F) -> (r: Spanned<R>)
        requires
            f.requires((self,)),
        ensures
            r.span == self.span,
            f.ensures((self,), r.node),
    {
        let span = self.span;
        Spanned { span, node: f(self) }
    }

    /// Transforms the node, keeping the span.
    #[inline]
    pub fn map<F: FnOnce(T) -> R, R>(self, f: F) -> (r: Spanned<R>)
        requires
            f.requires((self.node,)),
        ensures
            r.span == self.span,
            f.ensures((self.node,), r.node),
    {
        let span = self.span;
        Spanned { span, node: f(self.node) }
    }
}

} // verus!
