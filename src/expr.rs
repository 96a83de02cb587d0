//! Top-level expressions and the types they carry.
use vstd::prelude::*;
use crate::types::{Ty, Type, types_view, types_equal, copy_types};
use crate::value::{Val, Value, infer};

verus! {

/// Mathematical model of an [`Expr`].
pub enum ExprModel {
    Var(Seq<char>, Seq<Ty>, Box<ExprModel>),
    Value(Val),
    If(Box<ExprModel>, Box<ExprModel>),
}

/// A top-level expression: a variable declaration with its declared (or
/// inferred) types and bound value, a bare value, or a conditional that no
/// grammar rule produces.
#[derive(Debug)]
pub enum Expr {
    Var(String, Vec<Type>, Box<Expr>),
    Value(Value),
    If(Box<Expr>, Box<Expr>),
}

impl Expr {
    pub open spec fn view(&self) -> ExprModel
        decreases self,
    {
        match self {
            Expr::Var(name, types, value) => ExprModel::Var(
                name@,
                types_view(types@),
                Box::new((**value).view()),
            ),
            Expr::Value(v) => ExprModel::Value(v@),
            Expr::If(a, b) => ExprModel::If(Box::new((**a).view()), Box::new((**b).view())),
        }
    }
}

/// Equality of expressions: declarations are equal when their names and type
/// lists are, whatever value they bind; bare values when the values are; a
/// conditional equals nothing.
pub open spec fn expr_eq(a: ExprModel, b: ExprModel) -> bool {
    match (a, b) {
        (ExprModel::Var(n1, t1, _), ExprModel::Var(n2, t2, _)) => n1 == n2 && t1 == t2,
        (ExprModel::Value(x), ExprModel::Value(y)) => x == y,
        _ => false,
    }
}

/// The types of an expression: the stored list of a declaration, the type of
/// a bare value, both branches of a conditional one after the other.
pub open spec fn expr_types(e: ExprModel) -> Seq<Ty>
    decreases e,
{
    match e {
        ExprModel::Var(_, types, _) => types,
        ExprModel::Value(v) => seq![infer(v)],
        ExprModel::If(a, b) => expr_types(*a) + expr_types(*b),
    }
}

/// The models of a sequence of expressions.
pub open spec fn exprs_view(s: Seq<Expr>) -> Seq<ExprModel> {
    Seq::new(s.len(), |i: int| s[i]@)
}

impl Expr {
    /// The types of this expression (see [`expr_types`]).
    pub fn type_of(&self) -> (r: Vec<Type>)
        ensures
            types_view(r@) == expr_types(self@),
        decreases self,
    {
        match self {
            Expr::Var(_, types, _) => copy_types(types),
            Expr::Value(v) => {
                let t = v.type_of();
                let r = vec![t];
                proof {
                    crate::types::lemma_types_view(r@);
                    assert(types_view(r@) =~= seq![infer(v@)]);
                }
                r
            },
            Expr::If(a, b) => {
                let mut left = a.type_of();
                let mut right = b.type_of();
                let ghost l = left@;
                let ghost rt = right@;
                left.append(&mut right);
                proof {
                    crate::types::lemma_types_view(l);
                    crate::types::lemma_types_view(rt);
                    crate::types::lemma_types_view(left@);
                    assert(types_view(left@) =~= types_view(l) + types_view(rt));
                }
                left
            },
        }
    }
}

impl PartialEq for Expr {
    fn eq(&self, other: &Expr) -> (r: bool) {
        match (self, other) {
            (Expr::Var(n1, t1, _), Expr::Var(n2, t2, _)) => *n1 == *n2 && types_equal(t1, t2),
            (Expr::Value(x), Expr::Value(y)) => x.eq(y),
            _ => false,
        }
    }
}

impl vstd::std_specs::cmp::PartialEqSpecImpl for Expr {
    open spec fn obeys_eq_spec() -> bool {
        true
    }

    open spec fn eq_spec(&self, other: &Expr) -> bool {
        expr_eq(self@, other@)
    }
}

impl vstd::std_specs::convert::FromSpecImpl<Value> for Expr {
    open spec fn obeys_from_spec() -> bool {
        true
    }

    open spec fn from_spec(v: Value) -> Expr {
        Expr::Value(v)
    }
}

impl From<Value> for Expr {
    fn from(v: Value) -> Expr {
        Expr::Value(v)
    }
}

impl vstd::std_specs::convert::FromSpecImpl<i64> for Expr {
    open spec fn obeys_from_spec() -> bool {
        true
    }

    open spec fn from_spec(v: i64) -> Expr {
        Expr::Value(Value::Integer(v))
    }
}

impl From<i64> for Expr {
    fn from(v: i64) -> Expr {
        Expr::Value(Value::Integer(v))
    }
}

impl vstd::std_specs::convert::FromSpecImpl<bool> for Expr {
    open spec fn obeys_from_spec() -> bool {
        true
    }

    open spec fn from_spec(v: bool) -> Expr {
        Expr::Value(Value::Bool(v))
    }
}

impl From<bool> for Expr {
    fn from(v: bool) -> Expr {
        Expr::Value(Value::Bool(v))
    }
}

impl vstd::std_specs::convert::FromSpecImpl<String> for Expr {
    open spec fn obeys_from_spec() -> bool {
        true
    }

    open spec fn from_spec(v: String) -> Expr {
        Expr::Value(Value::String(v))
    }
}

impl From<String> for Expr {
    fn from(v: String) -> Expr {
        Expr::Value(Value::String(v))
    }
}

impl vstd::std_specs::convert::FromSpecImpl<Vec<Value>> for Expr {
    open spec fn obeys_from_spec() -> bool {
        true
    }

    open spec fn from_spec(v: Vec<Value>) -> Expr {
        Expr::Value(Value::List(v))
    }
}

impl From<Vec<Value>> for Expr {
    fn from(v: Vec<Value>) -> Expr {
        Expr::Value(Value::List(v))
    }
}


impl Expr {
    /// A copy with the same model.
    pub fn copied(&self) -> (r: Expr)
        ensures
            r@ == self@,
        decreases self,
    {
        match self {
            Expr::Var(name, types, value) => {
                let inner = value.copied();
                Expr::Var(name.clone(), copy_types(types), Box::new(inner))
            },
            Expr::Value(v) => Expr::Value(v.copied()),
            Expr::If(a, b) => {
                let x = a.copied();
                let y = b.copied();
                Expr::If(Box::new(x), Box::new(y))
            },
        }
    }
}

impl Clone for Expr {
    fn clone(&self) -> (r: Expr)
        ensures
            r@ == self@,
    {
        self.copied()
    }
}

} // verus!
