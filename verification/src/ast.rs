use vstd::prelude::*;

verus! {

/// A source range as the parser records it: `lo` and `hi` are byte positions
/// counted from one, so that position zero can stand for "no position".
#[derive(Clone, Copy, Debug, PartialEq, Eq, Structural)]
pub struct Span {
    pub lo: u32,
    pub hi: u32,
}

impl Span {
    /// Zero-based offset of the first byte of the range.
    pub fn real_lo(&self) -> (r: u32)
        requires
            self.lo >= 1,
        ensures
            r == self.lo - 1,
    {
        self.lo - 1
    }

    /// Zero-based offset just past the last byte of the range.
    pub fn real_hi(&self) -> (r: u32)
        requires
            self.hi >= 1,
        ensures
            r == self.hi - 1,
    {
        self.hi - 1
    }
}

/// An identifier.
#[derive(Clone, Debug)]
pub struct Ident {
    pub span: Span,
    pub sym: String,
}

/// A string literal, with its value unescaped.
#[derive(Clone, Debug)]
pub struct Str {
    pub span: Span,
    pub value: String,
}

/// A literal: a string, or any other kind.
#[derive(Clone, Debug)]
pub enum Lit {
    Str(Str),
    Other(Span),
}

/// Which meta property an expression names.
#[derive(Clone, Copy, Debug, PartialEq, Eq, Structural)]
pub enum MetaPropKind {
    /// `import.meta`
    ImportMeta,
    /// `new.target`
    NewTarget,
}

/// A meta property such as `import.meta`.
#[derive(Clone, Copy, Debug)]
pub struct MetaPropExpr {
    pub span: Span,
    pub kind: MetaPropKind,
}

/// The property of a member expression: a name after a dot, a private name (`#name`,
/// kept without the `#`), or a computed one.
#[derive(Debug)]
pub enum MemberProp {
    Ident(Ident),
    PrivateName(Ident),
    Computed(Box<Expr>),
}

/// `obj.prop` or `obj[prop]`.
#[derive(Debug)]
pub struct MemberExpr {
    pub span: Span,
    pub obj: Box<Expr>,
    pub prop: MemberProp,
}

/// An argument of a call, spread (`...expr`) when `spread` holds the span of the dots.
#[derive(Debug)]
pub struct ExprOrSpread {
    pub spread: Option<Span>,
    pub expr: Box<Expr>,
}

/// `new callee(args)`; `args` is `None` for `new callee` without parentheses.
#[derive(Debug)]
pub struct NewExpr {
    pub span: Span,
    pub callee: Box<Expr>,
    pub args: Option<Vec<ExprOrSpread>>,
}

/// An expression. The kinds that the scanners look into are spelt out; any other kind
/// keeps its span and the expressions directly inside it, in source order.
#[derive(Debug)]
pub enum Expr {
    Ident(Ident),
    Lit(Lit),
    New(NewExpr),
    Member(MemberExpr),
    MetaProp(MetaPropExpr),
    Other(Span, Vec<Expr>),
}

impl Lit {
    pub open spec fn spec_span(&self) -> Span {
        match self {
            Lit::Str(s) => s.span,
            Lit::Other(span) => *span,
        }
    }
}

impl Expr {
    /// The source range of the expression.
    pub open spec fn spec_span(&self) -> Span {
        match self {
            Expr::Ident(i) => i.span,
            Expr::Lit(l) => l.spec_span(),
            Expr::New(n) => n.span,
            Expr::Member(m) => m.span,
            Expr::MetaProp(m) => m.span,
            Expr::Other(span, _) => *span,
        }
    }

    /// The source range of the expression.
    #[verifier::when_used_as_spec(spec_span)]
    pub fn span(&self) -> (span: Span)
        ensures
            span == self.spec_span(),
    {
        match self {
            Expr::Ident(i) => i.span,
            Expr::Lit(l) => match l {
                Lit::Str(s) => s.span,
                Lit::Other(span) => *span,
            },
            Expr::New(n) => n.span,
            Expr::Member(m) => m.span,
            Expr::MetaProp(m) => m.span,
            Expr::Other(span, _) => *span,
        }
    }
}

/// Whether `e` is `import.meta.url`.
pub open spec fn spec_is_import_meta_url(e: Expr) -> bool {
    match e {
        Expr::Member(m) => match (*m.obj, m.prop) {
            (Expr::MetaProp(meta), MemberProp::Ident(prop)) => meta.kind == MetaPropKind::ImportMeta
                && prop.sym@ == seq!['u', 'r', 'l'],
            _ => false,
        },
        _ => false,
    }
}

/// Whether `e` is `import.meta.url`.
pub fn is_import_meta_url(e: &Expr) -> (r: bool)
    ensures
        r == spec_is_import_meta_url(*e),
{
    match e {
        Expr::Member(m) => match (&*m.obj, &m.prop) {
            (Expr::MetaProp(meta), MemberProp::Ident(prop)) => {
                let url = String::from_str("url");
                proof {
                    reveal_strlit("url");
                    assert(url@ =~= seq!['u', 'r', 'l']);
                }
                let is_meta = match meta.kind {
                    MetaPropKind::ImportMeta => true,
                    MetaPropKind::NewTarget => false,
                };
                is_meta && prop.sym == url
            },
            _ => false,
        },
        _ => false,
    }
}

} // verus!
