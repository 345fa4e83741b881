//! The expression tree that the analysis walks. Each node carries the stable
//! numeric id assigned by the upstream parser, its source span, and a tagged
//! representation sufficient to drive dispatch: an atom (symbol reference),
//! a literal, a field or trait reference, or a list form.

use vstd::prelude::*;
use crate::span::Span;
use crate::text::str_eq;

verus! {

/// The tagged representation of one expression node.
#[derive(Debug)]
pub enum ExprKind {
    /// A symbol reference.
    Atom(String),
    /// An atom or literal value: never tainted.
    Literal,
    /// A field reference: out of the analysis' scope, no taint effect.
    Field,
    /// A trait reference: out of the analysis' scope, no taint effect.
    TraitRef,
    /// A list form: a call, a special form, or a definition.
    List(Vec<Expr>),
}

/// One expression node.
#[derive(Debug)]
pub struct Expr {
    /// Stable unique id assigned by the upstream parser.
    pub id: u64,
    /// The source region this expression covers.
    pub span: Span,
    pub kind: ExprKind,
}

impl Expr {
    pub fn atom(id: u64, span: Span, name: &str) -> (e: Expr)
        ensures
            e.id == id,
            e.span == span,
            e.kind matches ExprKind::Atom(n) && n@ == name@,
    {
        Expr { id, span, kind: ExprKind::Atom(name.to_owned()) }
    }

    pub fn literal(id: u64, span: Span) -> (e: Expr)
        ensures
            e == (Expr { id, span, kind: ExprKind::Literal }),
    {
        Expr { id, span, kind: ExprKind::Literal }
    }

    pub fn field(id: u64, span: Span) -> (e: Expr)
        ensures
            e == (Expr { id, span, kind: ExprKind::Field }),
    {
        Expr { id, span, kind: ExprKind::Field }
    }

    pub fn trait_ref(id: u64, span: Span) -> (e: Expr)
        ensures
            e == (Expr { id, span, kind: ExprKind::TraitRef }),
    {
        Expr { id, span, kind: ExprKind::TraitRef }
    }

    pub fn list(id: u64, span: Span, items: Vec<Expr>) -> (e: Expr)
        ensures
            e.id == id,
            e.span == span,
            e.kind matches ExprKind::List(l) && l == items,
    {
        Expr { id, span, kind: ExprKind::List(items) }
    }

    /// The atom name of this expression, if it is a symbol reference.
    pub open spec fn atom_spec(&self) -> Option<Seq<char>> {
        match self.kind {
            ExprKind::Atom(ref n) => Some(n@),
            _ => None,
        }
    }

    /// The atom name of this expression, if it is a symbol reference.
    pub fn match_atom(&self) -> (r: Option<&String>)
        ensures
            match r {
                Some(n) => self.atom_spec() == Some(n@),
                None => self.atom_spec() is None,
            },
    {
        match &self.kind {
            ExprKind::Atom(n) => Some(n),
            _ => None,
        }
    }

    /// Whether this expression is the atom named `name`.
    pub open spec fn is_atom_named(&self, name: Seq<char>) -> bool {
        self.atom_spec() == Some(name)
    }

    /// Decides [`Expr::is_atom_named`].
    pub fn has_atom_name(&self, name: &str) -> (r: bool)
        ensures
            r == self.is_atom_named(name@),
    {
        match &self.kind {
            ExprKind::Atom(n) => str_eq(n.as_str(), name),
            _ => false,
        }
    }
}

/// The names of the definition forms: a list headed by one of these is a
/// definition and takes no part in the generic taint merge.
pub open spec fn is_define_name(name: Seq<char>) -> bool {
    ||| name == "define-constant"@
    ||| name == "define-private"@
    ||| name == "define-public"@
    ||| name == "define-read-only"@
    ||| name == "define-map"@
    ||| name == "define-data-var"@
    ||| name == "define-fungible-token"@
    ||| name == "define-non-fungible-token"@
    ||| name == "define-trait"@
    ||| name == "use-trait"@
    ||| name == "impl-trait"@
}

/// Decides [`is_define_name`].
pub fn check_define_name(name: &String) -> (r: bool)
    ensures
        r == is_define_name(name@),
{
    let n = name.as_str();
    str_eq(n, "define-constant") || str_eq(n, "define-private") || str_eq(n, "define-public")
        || str_eq(n, "define-read-only") || str_eq(n, "define-map") || str_eq(
        n,
        "define-data-var",
    ) || str_eq(n, "define-fungible-token") || str_eq(n, "define-non-fungible-token") || str_eq(
        n,
        "define-trait",
    ) || str_eq(n, "use-trait") || str_eq(n, "impl-trait")
}

/// The declared type of a function parameter, reduced to what the analysis
/// reads from it: whether the type can carry externally supplied,
/// attacker-controlled variability.
#[derive(Clone, Copy, Debug, PartialEq, Eq, Structural)]
pub enum ParamType {
    Uint,
    Int,
    Bool,
    Principal,
    Buffer,
    StringAscii,
    StringUtf8,
    Other,
}

impl ParamType {
    /// A principal names an account and a bool carries a single bit chosen
    /// from two fixed values: neither can carry attacker-controlled data
    /// that needs checking.
    pub open spec fn is_exempt_spec(self) -> bool {
        self == ParamType::Principal || self == ParamType::Bool
    }

    /// Decides [`ParamType::is_exempt_spec`].
    pub fn is_exempt(&self) -> (r: bool)
        ensures
            r == self.is_exempt_spec(),
    {
        match self {
            ParamType::Principal => true,
            ParamType::Bool => true,
            _ => false,
        }
    }
}

/// A function parameter: its name, declared type, and declaration span.
#[derive(Debug)]
pub struct TypedParam {
    pub name: String,
    pub typ: ParamType,
    pub decl_span: Span,
}

/// The mathematical content of one parameter descriptor.
pub struct ParamV {
    pub name: Seq<char>,
    pub typ: ParamType,
    pub decl_span: Span,
}

impl View for TypedParam {
    type V = ParamV;

    open spec fn view(&self) -> ParamV {
        ParamV { name: self.name@, typ: self.typ, decl_span: self.decl_span }
    }
}

impl TypedParam {
    pub fn new(name: &str, typ: ParamType, decl_span: Span) -> (p: TypedParam)
        ensures
            p.name@ == name@,
            p.typ == typ,
            p.decl_span == decl_span,
    {
        TypedParam { name: name.to_owned(), typ, decl_span }
    }
}

/// Reads a parameter's declared type from its type expression: the atoms
/// naming the primitive types map to their tags, everything else is
/// [`ParamType::Other`].
pub open spec fn param_type_of_spec(e: &Expr) -> ParamType {
    if e.is_atom_named("uint"@) {
        ParamType::Uint
    } else if e.is_atom_named("int"@) {
        ParamType::Int
    } else if e.is_atom_named("bool"@) {
        ParamType::Bool
    } else if e.is_atom_named("principal"@) {
        ParamType::Principal
    } else {
        ParamType::Other
    }
}

/// Decides [`param_type_of_spec`].
pub fn param_type_of(e: &Expr) -> (r: ParamType)
    ensures
        r == param_type_of_spec(e),
{
    if e.has_atom_name("uint") {
        ParamType::Uint
    } else if e.has_atom_name("int") {
        ParamType::Int
    } else if e.has_atom_name("bool") {
        ParamType::Bool
    } else if e.has_atom_name("principal") {
        ParamType::Principal
    } else {
        ParamType::Other
    }
}

} // verus!
