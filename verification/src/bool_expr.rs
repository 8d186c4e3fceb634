//! Boolean expressions in the shape that the `quine-mc_cluskey` minimizer
//! works on, and the minimizer itself behind a trusted wrapper.
use vstd::prelude::*;

use quine_mc_cluskey::Bool;

verus! {

/// A boolean expression over variables `Term(0)`, `Term(1)`, ...: the same
/// shape as `quine_mc_cluskey::Bool`, held as plain values of this library.
#[derive(Debug)]
pub enum BoolExpr {
    True,
    False,
    Term(u8),
    And(Vec<BoolExpr>),
    Or(Vec<BoolExpr>),
    Not(Box<BoolExpr>),
}

/// The mathematical model of a [`BoolExpr`]: the same tree with sequences
/// in place of vectors.
pub enum Expr {
    True,
    False,
    Term(int),
    And(Seq<Expr>),
    Or(Seq<Expr>),
    Not(Box<Expr>),
}

impl BoolExpr {
    /// The model of the expression.
    pub open spec fn model(self) -> Expr
        decreases self,
    {
        match self {
            BoolExpr::True => Expr::True,
            BoolExpr::False => Expr::False,
            BoolExpr::Term(i) => Expr::Term(i as int),
            BoolExpr::And(v) => Expr::And(
                Seq::new(v@.len(), |k: int| if 0 <= k < v@.len() { v@[k].model() } else { Expr::False }),
            ),
            BoolExpr::Or(v) => Expr::Or(
                Seq::new(v@.len(), |k: int| if 0 <= k < v@.len() { v@[k].model() } else { Expr::False }),
            ),
            BoolExpr::Not(b) => Expr::Not(Box::new(b.model())),
        }
    }
}

impl View for BoolExpr {
    type V = Expr;

    open spec fn view(&self) -> Expr {
        self.model()
    }
}

/// The models of a sequence of expressions.
pub open spec fn models(v: Seq<BoolExpr>) -> Seq<Expr> {
    v.map_values(|b: BoolExpr| b@)
}

impl Expr {
    /// The value of the expression when variable `i` has the value `env(i)`.
    pub open spec fn eval(self, env: spec_fn(int) -> bool) -> bool
        decreases self,
    {
        match self {
            Expr::True => true,
            Expr::False => false,
            Expr::Term(i) => env(i),
            Expr::And(v) => forall|k: int| 0 <= k < v.len() ==> (#[trigger] v[k]).eval(env),
            Expr::Or(v) => exists|k: int| 0 <= k < v.len() && (#[trigger] v[k]).eval(env),
            Expr::Not(b) => !b.eval(env),
        }
    }

    /// Whether variable `i` occurs in the expression.
    pub open spec fn has_term(self, i: int) -> bool
        decreases self,
    {
        match self {
            Expr::True => false,
            Expr::False => false,
            Expr::Term(j) => j == i,
            Expr::And(v) => exists|k: int| 0 <= k < v.len() && (#[trigger] v[k]).has_term(i),
            Expr::Or(v) => exists|k: int| 0 <= k < v.len() && (#[trigger] v[k]).has_term(i),
            Expr::Not(b) => b.has_term(i),
        }
    }

    /// Every `And` and every `Or` in the expression has at least two operands.
    pub open spec fn well_formed(self) -> bool
        decreases self,
    {
        match self {
            Expr::And(v) => v.len() >= 2 && forall|k: int| 0 <= k < v.len() ==> (#[trigger] v[k]).well_formed(),
            Expr::Or(v) => v.len() >= 2 && forall|k: int| 0 <= k < v.len() ==> (#[trigger] v[k]).well_formed(),
            Expr::Not(b) => b.well_formed(),
            _ => true,
        }
    }

    /// The variables that occur are exactly `0..n`.
    pub open spec fn terms_are_first(self, n: int) -> bool {
        forall|i: int| #[trigger] self.has_term(i) <==> 0 <= i < n
    }

    /// The variables that occur are exactly `0..n` for some `n <= 31`.
    pub open spec fn dense_terms(self) -> bool {
        exists|n: int| 0 <= n <= 31 && #[trigger] self.terms_are_first(n)
    }

    /// A variable or a negated variable.
    pub open spec fn is_literal(self) -> bool {
        match self {
            Expr::Term(_) => true,
            Expr::Not(b) => b.is_term(),
            _ => false,
        }
    }

    pub open spec fn is_term(self) -> bool {
        self is Term
    }

    /// A literal, or the conjunction of literals.
    pub open spec fn is_product(self) -> bool {
        match self {
            Expr::And(v) => forall|k: int| 0 <= k < v.len() ==> (#[trigger] v[k]).is_literal(),
            _ => self.is_literal(),
        }
    }

    /// A constant, a product, or the disjunction of products.
    pub open spec fn is_sum_of_products(self) -> bool {
        match self {
            Expr::True => true,
            Expr::False => true,
            Expr::Or(v) => forall|k: int| 0 <= k < v.len() ==> (#[trigger] v[k]).is_product(),
            _ => self.is_product(),
        }
    }
}

impl Expr {
    /// The number of products of a sum of products: none for `False`, one
    /// per operand of an `Or`, else one.
    pub open spec fn product_count(self) -> int {
        match self {
            Expr::False => 0,
            Expr::Or(v) => v.len() as int,
            _ => 1,
        }
    }
}

/// No sum of products that has the value of `b` under every assignment has
/// fewer products than `f`.
pub open spec fn has_fewest_products(f: Expr, b: Expr) -> bool {
    forall|e: Expr|
        #![trigger e.product_count()]
        e.is_sum_of_products() && (forall|env: spec_fn(int) -> bool| #[trigger] e.eval(env) == b.eval(env))
            ==> f.product_count() <= e.product_count()
}

/// What `quine_mc_cluskey::Bool::simplify` returns for an expression: the
/// minimal sum-of-products forms that it finds.
pub uninterp spec fn qmc_simplify(e: Expr) -> Seq<Expr>;

/// The outside type of the minimizer's expressions.
#[verifier::external_type_specification]
#[verifier::external_body]
pub struct ExBool(Bool);

/// Builds the minimizer's expression with the same tree as `b`.
#[verifier::external_body]
fn to_qmc(b: &BoolExpr) -> Bool {
    match b {
        BoolExpr::True => Bool::True,
        BoolExpr::False => Bool::False,
        BoolExpr::Term(i) => Bool::Term(*i),
        BoolExpr::And(v) => Bool::And(v.iter().map(to_qmc).collect()),
        BoolExpr::Or(v) => Bool::Or(v.iter().map(to_qmc).collect()),
        BoolExpr::Not(inner) => Bool::Not(Box::new(to_qmc(inner))),
    }
}

/// Builds the expression of this library with the same tree as `b`.
#[verifier::external_body]
fn from_qmc(b: &Bool) -> BoolExpr {
    match b {
        Bool::True => BoolExpr::True,
        Bool::False => BoolExpr::False,
        Bool::Term(i) => BoolExpr::Term(*i),
        Bool::And(v) => BoolExpr::And(v.iter().map(from_qmc).collect()),
        Bool::Or(v) => BoolExpr::Or(v.iter().map(from_qmc).collect()),
        Bool::Not(inner) => BoolExpr::Not(Box::new(from_qmc(inner))),
    }
}

/// Calls `quine_mc_cluskey::Bool::simplify` on the expression with the tree
/// of `b`.
///
/// The contract claims of that function, as its source shows: the forms
/// that it returns are named by [`qmc_simplify`]; there is at least one;
/// each is `True`, `False`, a product of literals or the disjunction of such
/// products (it builds them from prime implicants by `Term::to_bool_expr`);
/// each uses only variables of `b`; and each has the value of `b` under
/// every assignment; and none has more products than any sum of products
/// with that value. The source builds the forms from the prime implicants
/// of `b` (Quine-McCluskey) and keeps, of the covers of its minterms that
/// Petrick's method gives, only those with the fewest prime implicants;
/// every product of an equivalent sum lies in a prime implicant, so no
/// equivalent sum has fewer products.
/// `requires` leaves out the inputs on which it panics (a variable above
/// 31, variables that are not `0..n`) and the `And`/`Or` with fewer than two
/// operands that its documentation rules out.
#[verifier::external_body]
pub(crate) fn qmc_simplify_forms(b: &BoolExpr) -> (forms: Vec<BoolExpr>)
    requires
        b@.well_formed(),
        b@.dense_terms(),
    ensures
        models(forms@) == qmc_simplify(b@),
        forms.len() >= 1,
        forall|k: int| 0 <= k < forms.len() ==> (#[trigger] forms@[k]@).is_sum_of_products(),
        forall|k: int, i: int|
            0 <= k < forms.len() && #[trigger] forms@[k]@.has_term(i) ==> b@.has_term(i),
        forall|k: int, env: spec_fn(int) -> bool|
            0 <= k < forms.len() ==> #[trigger] forms@[k]@.eval(env) == b@.eval(env),
        forall|k: int| 0 <= k < forms.len() ==> has_fewest_products(#[trigger] forms@[k]@, b@),
{
    to_qmc(b).simplify().iter().map(from_qmc).collect()
}

} // verus!
