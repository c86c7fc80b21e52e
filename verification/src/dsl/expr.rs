//! Expression trees produced by the expression parser.
use vstd::prelude::*;

verus! {

/// A literal value.
#[derive(Debug, PartialEq)]
pub enum DslValue {
    Null,
    Bool(bool),
    Int(i64),
    Str(String),
    Array(Vec<DslValue>),
}

/// A variable reference: `$self`, `$file`, `$project`, or a named binding.
#[derive(Debug, Clone, PartialEq)]
pub enum VarRef {
    SelfVar,
    File,
    Project,
    Binding(String),
}

/// An expression tree.
#[derive(Debug, PartialEq)]
pub enum Expr {
    Lit(DslValue),
    Var(VarRef),
    Field(Box<Expr>, String),
    Not(Box<Expr>),
    Eq(Box<Expr>, Box<Expr>),
    Ne(Box<Expr>, Box<Expr>),
    And(Box<Expr>, Box<Expr>),
    Or(Box<Expr>, Box<Expr>),
    In(Box<Expr>, Box<Expr>),
    NotIn(Box<Expr>, Box<Expr>),
    Every(String, Box<Expr>, Box<Expr>),
    Some_(String, Box<Expr>, Box<Expr>),
    Filter(String, Box<Expr>, Box<Expr>),
    Call(String, Vec<Expr>),
}

/// The mathematical form of a [`DslValue`].
pub enum SValue {
    Null,
    Bool(bool),
    Int(int),
    Str(Seq<char>),
    Array(Seq<SValue>),
}

/// The mathematical form of a [`VarRef`].
pub enum SVar {
    SelfVar,
    File,
    Project,
    Binding(Seq<char>),
}

/// The mathematical form of an [`Expr`].
pub enum SExpr {
    Lit(SValue),
    Var(SVar),
    Field(Box<SExpr>, Seq<char>),
    Not(Box<SExpr>),
    Eq(Box<SExpr>, Box<SExpr>),
    Ne(Box<SExpr>, Box<SExpr>),
    And(Box<SExpr>, Box<SExpr>),
    Or(Box<SExpr>, Box<SExpr>),
    In(Box<SExpr>, Box<SExpr>),
    NotIn(Box<SExpr>, Box<SExpr>),
    Every(Seq<char>, Box<SExpr>, Box<SExpr>),
    Some_(Seq<char>, Box<SExpr>, Box<SExpr>),
    Filter(Seq<char>, Box<SExpr>, Box<SExpr>),
    Call(Seq<char>, Seq<SExpr>),
}

impl DslValue {
    pub open spec fn view(&self) -> SValue
        decreases self,
    {
        match self {
            DslValue::Null => SValue::Null,
            DslValue::Bool(b) => SValue::Bool(*b),
            DslValue::Int(n) => SValue::Int(*n as int),
            DslValue::Str(s) => SValue::Str(s@),
            DslValue::Array(v) => SValue::Array(
                Seq::new(
                    v.len() as nat,
                    |i: int|
                        if 0 <= i < v.len() {
                            v[i].view()
                        } else {
                            SValue::Null
                        },
                ),
            ),
        }
    }
}

impl VarRef {
    pub open spec fn view(&self) -> SVar {
        match self {
            VarRef::SelfVar => SVar::SelfVar,
            VarRef::File => SVar::File,
            VarRef::Project => SVar::Project,
            VarRef::Binding(s) => SVar::Binding(s@),
        }
    }
}

impl Expr {
    pub open spec fn view(&self) -> SExpr
        decreases self,
    {
        match self {
            Expr::Lit(v) => SExpr::Lit(v.view()),
            Expr::Var(v) => SExpr::Var(v.view()),
            Expr::Field(e, f) => SExpr::Field(Box::new(e.view()), f@),
            Expr::Not(e) => SExpr::Not(Box::new(e.view())),
            Expr::Eq(a, b) => SExpr::Eq(Box::new(a.view()), Box::new(b.view())),
            Expr::Ne(a, b) => SExpr::Ne(Box::new(a.view()), Box::new(b.view())),
            Expr::And(a, b) => SExpr::And(Box::new(a.view()), Box::new(b.view())),
            Expr::Or(a, b) => SExpr::Or(Box::new(a.view()), Box::new(b.view())),
            Expr::In(a, b) => SExpr::In(Box::new(a.view()), Box::new(b.view())),
            Expr::NotIn(a, b) => SExpr::NotIn(Box::new(a.view()), Box::new(b.view())),
            Expr::Every(n, a, b) => SExpr::Every(n@, Box::new(a.view()), Box::new(b.view())),
            Expr::Some_(n, a, b) => SExpr::Some_(n@, Box::new(a.view()), Box::new(b.view())),
            Expr::Filter(n, a, b) => SExpr::Filter(n@, Box::new(a.view()), Box::new(b.view())),
            Expr::Call(n, args) => SExpr::Call(
                n@,
                Seq::new(
                    args.len() as nat,
                    |i: int|
                        if 0 <= i < args.len() {
                            args[i].view()
                        } else {
                            SExpr::Lit(SValue::Null)
                        },
                ),
            ),
        }
    }
}

/// The views of a vector of expressions.
pub open spec fn view_exprs(v: Seq<Expr>) -> Seq<SExpr> {
    Seq::new(v.len(), |i: int| v[i].view())
}

/// The views of a vector of values.
pub open spec fn view_values(v: Seq<DslValue>) -> Seq<SValue> {
    Seq::new(v.len(), |i: int| v[i].view())
}

} // verus!
