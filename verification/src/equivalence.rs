//! Why the optimizer keeps the logic of a term: the expression built from
//! a term has the term's value, and the term built from a minimized
//! expression has the expression's value, when variable `i` stands for
//! pin `vars[i]`.
use vstd::prelude::*;

use crate::bool_expr::Expr;
use crate::gal::{literal_holds, pin_occurs, product_holds, sum_holds, Pin};
use crate::optimize::{
    first_index, is_var_list, literal_expr, literal_pin, product_expr, product_pins,
    strictly_increasing, sum_products, term_expr, terms_below,
};

verus! {

/// The assignment of the variables that a pin assignment induces:
/// variable `i` has the level of pin `vars[i]`.
pub open spec fn var_env(assignment: spec_fn(int) -> bool, vars: Seq<usize>) -> spec_fn(int) -> bool {
    |i: int|
        if 0 <= i < vars.len() {
            assignment(vars[i] as int)
        } else {
            false
        }
}

/// For a pin of `vars` (increasing, at most 256 of them), the variable of
/// its literal is its position.
pub proof fn lemma_literal_var(pin: Pin, vars: Seq<usize>)
    requires
        strictly_increasing(vars),
        vars.len() <= 256,
        vars.contains(pin.pin),
    ensures
        0 <= first_index(vars, pin.pin) < vars.len(),
        vars[first_index(vars, pin.pin)] == pin.pin,
        (first_index(vars, pin.pin) as u8) as int == first_index(vars, pin.pin),
{
    let i = choose|i: int| 0 <= i < vars.len() && vars[i] == pin.pin;
    crate::optimize::lemma_first_index_increasing(vars, i);
}

pub proof fn lemma_literal_expr_eval(pin: Pin, vars: Seq<usize>, assignment: spec_fn(int) -> bool)
    requires
        strictly_increasing(vars),
        vars.len() <= 31,
        vars.contains(pin.pin),
    ensures
        literal_expr(pin, vars).eval(var_env(assignment, vars)) == literal_holds(pin, assignment),
        literal_expr(pin, vars).well_formed(),
        forall|i: int| literal_expr(pin, vars).has_term(i) <==> i == first_index(vars, pin.pin),
{
    lemma_literal_var(pin, vars);
    let idx = first_index(vars, pin.pin);
    let t = Expr::Term(idx);
    assert(t.eval(var_env(assignment, vars)) == assignment(pin.pin as int));
    assert(t.well_formed());
    assert(forall|i: int| t.has_term(i) <==> i == idx);
    if pin.neg {
        let e = Expr::Not(Box::new(t));
        assert(literal_expr(pin, vars) == e);
        assert(e.well_formed());
        assert forall|i: int| e.has_term(i) <==> i == idx by {
            assert(e.has_term(i) == t.has_term(i));
        }
    } else {
        assert(literal_expr(pin, vars) == t);
    }
}

/// Every pin of the product is one of `vars`.
pub open spec fn product_covered(product: Seq<Pin>, vars: Seq<usize>) -> bool {
    forall|j: int| 0 <= j < product.len() ==> vars.contains(#[trigger] product[j].pin)
}

pub proof fn lemma_product_expr_eval(product: Seq<Pin>, vars: Seq<usize>, assignment: spec_fn(int) -> bool)
    requires
        strictly_increasing(vars),
        vars.len() <= 31,
        product_covered(product, vars),
    ensures
        product_expr(product, vars).eval(var_env(assignment, vars)) == product_holds(product, assignment),
        product_expr(product, vars).well_formed(),
        forall|i: int|
            product_expr(product, vars).has_term(i) <==> exists|j: int|
                0 <= j < product.len() && i == first_index(vars, (#[trigger] product[j]).pin),
{
    let env = var_env(assignment, vars);
    let e = product_expr(product, vars);
    if product.len() == 0 {
        assert(e == Expr::True);
    } else if product.len() == 1 {
        assert(vars.contains(product[0].pin));
        lemma_literal_expr_eval(product[0], vars, assignment);
        assert(product_holds(product, assignment) == literal_holds(product[0], assignment));
        assert forall|i: int| e.has_term(i) <==> exists|j: int|
            0 <= j < product.len() && i == first_index(vars, (#[trigger] product[j]).pin) by {
            if e.has_term(i) {
                assert(i == first_index(vars, product[0].pin));
            }
        }
    } else {
        let lits = product.map_values(|p: Pin| literal_expr(p, vars));
        assert(e == Expr::And(lits));
        assert(e->And_0 == lits);
        assert forall|j: int| 0 <= j < product.len() implies (#[trigger] lits[j]).eval(env) == literal_holds(
            product[j],
            assignment,
        ) && lits[j].well_formed() && (forall|i: int|
            lits[j].has_term(i) <==> i == first_index(vars, product[j].pin)) by {
            assert(vars.contains(product[j].pin));
            lemma_literal_expr_eval(product[j], vars, assignment);
        }
        if e.eval(env) {
            assert forall|j: int| 0 <= j < product.len() implies literal_holds(#[trigger] product[j], assignment) by {
                assert(lits[j].eval(env));
            }
        }
        if product_holds(product, assignment) {
            assert forall|j: int| 0 <= j < lits.len() implies (#[trigger] lits[j]).eval(env) by {
                assert(literal_holds(product[j], assignment));
            }
        }
        assert forall|i: int| e.has_term(i) <==> exists|j: int|
            0 <= j < product.len() && i == first_index(vars, (#[trigger] product[j]).pin) by {
            if e.has_term(i) {
                let j = choose|j: int| 0 <= j < lits.len() && (#[trigger] lits[j]).has_term(i);
                assert(i == first_index(vars, product[j].pin));
            }
            if exists|j: int| 0 <= j < product.len() && i == first_index(vars, (#[trigger] product[j]).pin) {
                let j = choose|j: int| 0 <= j < product.len() && i == first_index(vars, (#[trigger] product[j]).pin);
                assert(lits[j].has_term(i));
            }
        }
    }
}

/// Variable `i` is the variable of some pin of the products.
pub open spec fn var_occurs(products: Seq<Seq<Pin>>, vars: Seq<usize>, i: int) -> bool {
    exists|p: int, j: int|
        0 <= p < products.len() && 0 <= j < products[p].len() && i == first_index(
            vars,
            (#[trigger] products[p][j]).pin,
        )
}

/// The expression of a term has the term's value, is well formed, and its
/// variables are exactly `0..vars.len()`.
pub proof fn lemma_term_expr(products: Seq<Seq<Pin>>, vars: Seq<usize>, assignment: spec_fn(int) -> bool)
    requires
        is_var_list(vars, products),
        vars.len() <= 31,
    ensures
        term_expr(products, vars).eval(var_env(assignment, vars)) == sum_holds(products, assignment),
        term_expr(products, vars).well_formed(),
        term_expr(products, vars).terms_are_first(vars.len() as int),
{
    let env = var_env(assignment, vars);
    let e = term_expr(products, vars);
    assert forall|p: int| 0 <= p < products.len() implies product_covered(#[trigger] products[p], vars) by {
        assert forall|j: int| 0 <= j < products[p].len() implies vars.contains(#[trigger] products[p][j].pin) by {
            assert(pin_occurs(products, products[p][j].pin));
        }
    }
    assert forall|p: int| 0 <= p < products.len() implies {
        let pe = product_expr(#[trigger] products[p], vars);
        &&& pe.eval(env) == product_holds(products[p], assignment)
        &&& pe.well_formed()
        &&& forall|i: int|
            pe.has_term(i) <==> exists|j: int|
                0 <= j < products[p].len() && i == first_index(vars, (#[trigger] products[p][j]).pin)
    } by {
        lemma_product_expr_eval(products[p], vars, assignment);
    }
    assert forall|i: int| #[trigger] var_occurs(products, vars, i) <==> 0 <= i < vars.len() by {
        if var_occurs(products, vars, i) {
            let (p, j) = choose|p: int, j: int|
                0 <= p < products.len() && 0 <= j < products[p].len() && i == first_index(
                    vars,
                    (#[trigger] products[p][j]).pin,
                );
            assert(vars.contains(products[p][j].pin));
            lemma_literal_var(products[p][j], vars);
        }
        if 0 <= i < vars.len() {
            assert(vars.contains(vars[i]));
            assert(pin_occurs(products, vars[i]));
            let (p, j) = choose|p: int, j: int|
                0 <= p < products.len() && 0 <= j < products[p].len() && (#[trigger] products[p][j]).pin
                    == vars[i];
            crate::optimize::lemma_first_index_increasing(vars, i);
            assert(i == first_index(vars, products[p][j].pin));
        }
    }
    if products.len() == 0 {
        assert(e == Expr::False);
        assert forall|i: int| #[trigger] e.has_term(i) <==> 0 <= i < vars.len() by {
            if 0 <= i < vars.len() {
                assert(var_occurs(products, vars, i));
            }
        }
    } else if products.len() == 1 {
        assert(e == product_expr(products[0], vars));
        assert(sum_holds(products, assignment) == product_holds(products[0], assignment)) by {
            if sum_holds(products, assignment) {
                let p = choose|p: int| 0 <= p < products.len() && product_holds(#[trigger] products[p], assignment);
            }
        }
        assert forall|i: int| #[trigger] e.has_term(i) <==> 0 <= i < vars.len() by {
            if e.has_term(i) {
                let j = choose|j: int| 0 <= j < products[0].len() && i == first_index(vars, (#[trigger] products[0][j]).pin);
                assert(var_occurs(products, vars, i));
            }
            if 0 <= i < vars.len() {
                assert(var_occurs(products, vars, i));
                let (p, j) = choose|p: int, j: int|
                    0 <= p < products.len() && 0 <= j < products[p].len() && i == first_index(
                        vars,
                        (#[trigger] products[p][j]).pin,
                    );
                assert(p == 0);
            }
        }
    } else {
        let pes = products.map_values(|q: Seq<Pin>| product_expr(q, vars));
        assert(e == Expr::Or(pes));
        assert(e->Or_0 == pes);
        assert forall|p: int| 0 <= p < pes.len() implies (#[trigger] pes[p]).well_formed() by {
            assert(pes[p] == product_expr(products[p], vars));
        }
        if e.eval(env) {
            let p = choose|p: int| 0 <= p < pes.len() && (#[trigger] pes[p]).eval(env);
            assert(pes[p] == product_expr(products[p], vars));
            assert(product_holds(products[p], assignment));
        }
        if sum_holds(products, assignment) {
            let p = choose|p: int| 0 <= p < products.len() && product_holds(#[trigger] products[p], assignment);
            assert(pes[p] == product_expr(products[p], vars));
            assert(pes[p].eval(env));
        }
        assert forall|i: int| #[trigger] e.has_term(i) <==> 0 <= i < vars.len() by {
            if e.has_term(i) {
                let p = choose|p: int| 0 <= p < pes.len() && (#[trigger] pes[p]).has_term(i);
                assert(pes[p] == product_expr(products[p], vars));
                let j = choose|j: int| 0 <= j < products[p].len() && i == first_index(vars, (#[trigger] products[p][j]).pin);
                assert(var_occurs(products, vars, i));
            }
            if 0 <= i < vars.len() {
                assert(var_occurs(products, vars, i));
                let (p, j) = choose|p: int, j: int|
                    0 <= p < products.len() && 0 <= j < products[p].len() && i == first_index(
                        vars,
                        (#[trigger] products[p][j]).pin,
                    );
                assert(pes[p] == product_expr(products[p], vars));
                assert(pes[p].has_term(i));
            }
        }
    }
}

pub proof fn lemma_literal_pin_eval(e: Expr, vars: Seq<usize>, assignment: spec_fn(int) -> bool)
    requires
        e.is_literal(),
        terms_below(e, vars.len() as int),
    ensures
        literal_holds(literal_pin(e, vars), assignment) == e.eval(var_env(assignment, vars)),
{
    match e {
        Expr::Term(i) => {
            assert(e.has_term(i));
            assert(var_env(assignment, vars)(i) == assignment(vars[i] as int));
        },
        Expr::Not(inner) => {
            match *inner {
                Expr::Term(i) => {
                    assert(inner.has_term(i));
                    assert(e.has_term(i));
                    assert(var_env(assignment, vars)(i) == assignment(vars[i] as int));
                    assert(inner.eval(var_env(assignment, vars)) == assignment(vars[i] as int));
                },
                _ => {},
            }
        },
        _ => {},
    }
}

pub proof fn lemma_product_pins_eval(e: Expr, vars: Seq<usize>, assignment: spec_fn(int) -> bool)
    requires
        e.is_product(),
        terms_below(e, vars.len() as int),
    ensures
        product_holds(product_pins(e, vars), assignment) == e.eval(var_env(assignment, vars)),
{
    let env = var_env(assignment, vars);
    match e {
        Expr::And(v) => {
            assert(e->And_0 == v);
            let pins = product_pins(e, vars);
            assert forall|k: int| 0 <= k < v.len() implies literal_holds(#[trigger] pins[k], assignment) == v[k].eval(
                env,
            ) by {
                assert(v[k].is_literal());
                assert forall|i: int| #[trigger] v[k].has_term(i) implies 0 <= i < vars.len() by {
                    assert(e.has_term(i));
                }
                lemma_literal_pin_eval(v[k], vars, assignment);
            }
            if e.eval(env) {
                assert forall|k: int| 0 <= k < pins.len() implies literal_holds(#[trigger] pins[k], assignment) by {
                    assert(v[k].eval(env));
                }
            }
            if product_holds(pins, assignment) {
                assert forall|k: int| 0 <= k < v.len() implies (#[trigger] v[k]).eval(env) by {
                    assert(literal_holds(pins[k], assignment));
                }
            }
        },
        _ => {
            lemma_literal_pin_eval(e, vars, assignment);
            let pins = product_pins(e, vars);
            assert(pins == seq![literal_pin(e, vars)]);
            if e.eval(env) {
                assert forall|k: int| 0 <= k < pins.len() implies literal_holds(#[trigger] pins[k], assignment) by {
                    assert(k == 0);
                }
            }
            if product_holds(pins, assignment) {
                assert(literal_holds(pins[0], assignment));
            }
        },
    }
}

/// The term of a minimized expression has the expression's value.
pub proof fn lemma_sum_products_eval(e: Expr, vars: Seq<usize>, assignment: spec_fn(int) -> bool)
    requires
        e.is_sum_of_products(),
        terms_below(e, vars.len() as int),
    ensures
        sum_holds(sum_products(e, vars), assignment) == e.eval(var_env(assignment, vars)),
{
    let env = var_env(assignment, vars);
    let prods = sum_products(e, vars);
    match e {
        Expr::True => {
            assert(prods[0] == Seq::<Pin>::empty());
            assert(product_holds(prods[0], assignment));
        },
        Expr::False => {},
        Expr::Or(v) => {
            assert(e->Or_0 == v);
            assert forall|k: int| 0 <= k < v.len() implies product_holds(#[trigger] prods[k], assignment) == v[k].eval(
                env,
            ) by {
                assert(v[k].is_product());
                assert forall|i: int| #[trigger] v[k].has_term(i) implies 0 <= i < vars.len() by {
                    assert(e.has_term(i));
                }
                lemma_product_pins_eval(v[k], vars, assignment);
            }
            if e.eval(env) {
                let k = choose|k: int| 0 <= k < v.len() && (#[trigger] v[k]).eval(env);
                assert(product_holds(prods[k], assignment));
            }
            if sum_holds(prods, assignment) {
                let k = choose|k: int| 0 <= k < prods.len() && product_holds(#[trigger] prods[k], assignment);
                assert(v[k].eval(env));
            }
        },
        _ => {
            lemma_product_pins_eval(e, vars, assignment);
            assert(prods == seq![product_pins(e, vars)]);
            if e.eval(env) {
                assert(product_holds(prods[0], assignment));
            }
            if sum_holds(prods, assignment) {
                let k = choose|k: int| 0 <= k < prods.len() && product_holds(#[trigger] prods[k], assignment);
                assert(k == 0);
            }
        },
    }
}

} // verus!

verus! {

/// Every pin of a literal is one of `vars`.
pub proof fn lemma_literal_pin_in_vars(e: Expr, vars: Seq<usize>)
    requires
        e.is_literal(),
        terms_below(e, vars.len() as int),
    ensures
        vars.contains(literal_pin(e, vars).pin),
{
    match e {
        Expr::Term(i) => {
            assert(e.has_term(i));
            assert(vars[i] == literal_pin(e, vars).pin);
        },
        Expr::Not(inner) => {
            match *inner {
                Expr::Term(i) => {
                    assert(inner.has_term(i));
                    assert(e.has_term(i));
                    assert(vars[i] == literal_pin(e, vars).pin);
                },
                _ => {},
            }
        },
        _ => {},
    }
}

/// Every pin of a product is one of `vars`.
pub proof fn lemma_product_pins_in_vars(e: Expr, vars: Seq<usize>)
    requires
        e.is_product(),
        terms_below(e, vars.len() as int),
    ensures
        forall|j: int| 0 <= j < product_pins(e, vars).len() ==> vars.contains(#[trigger] product_pins(e, vars)[j].pin),
{
    let pins = product_pins(e, vars);
    match e {
        Expr::And(v) => {
            assert(e->And_0 == v);
            assert forall|j: int| 0 <= j < pins.len() implies vars.contains(#[trigger] pins[j].pin) by {
                assert(v[j].is_literal());
                assert forall|i: int| #[trigger] v[j].has_term(i) implies 0 <= i < vars.len() by {
                    assert(e.has_term(i));
                }
                lemma_literal_pin_in_vars(v[j], vars);
            }
        },
        _ => {
            lemma_literal_pin_in_vars(e, vars);
            assert(pins == seq![literal_pin(e, vars)]);
        },
    }
}

/// Every pin of the term of a minimized expression is one of `vars`.
pub proof fn lemma_sum_products_pins(e: Expr, vars: Seq<usize>)
    requires
        e.is_sum_of_products(),
        terms_below(e, vars.len() as int),
    ensures
        forall|x: usize| pin_occurs(sum_products(e, vars), x) ==> vars.contains(x),
{
    let prods = sum_products(e, vars);
    assert forall|x: usize| pin_occurs(prods, x) implies vars.contains(x) by {
        let (i, j) = choose|i: int, j: int|
            0 <= i < prods.len() && 0 <= j < prods[i].len() && (#[trigger] prods[i][j]).pin == x;
        match e {
            Expr::True => {},
            Expr::False => {},
            Expr::Or(v) => {
                assert(e->Or_0 == v);
                assert(v[i].is_product());
                assert forall|t: int| #[trigger] v[i].has_term(t) implies 0 <= t < vars.len() by {
                    assert(e.has_term(t));
                }
                lemma_product_pins_in_vars(v[i], vars);
                assert(prods[i] == product_pins(v[i], vars));
                assert(vars.contains(product_pins(v[i], vars)[j].pin));
            },
            _ => {
                lemma_product_pins_in_vars(e, vars);
                assert(prods[i] == product_pins(e, vars));
                assert(vars.contains(product_pins(e, vars)[j].pin));
            },
        }
    }
}

/// An expression has the same value under two assignments that agree on
/// its variables.
pub proof fn lemma_eval_agree(e: Expr, env1: spec_fn(int) -> bool, env2: spec_fn(int) -> bool, n: int)
    requires
        terms_below(e, n),
        forall|i: int| 0 <= i < n ==> #[trigger] env1(i) == env2(i),
    ensures
        e.eval(env1) == e.eval(env2),
    decreases e,
{
    match e {
        Expr::Term(i) => {
            assert(e.has_term(i));
        },
        Expr::And(v) => {
            assert forall|k: int| 0 <= k < v.len() implies (#[trigger] v[k]).eval(env1) == v[k].eval(env2) by {
                assert forall|i: int| #[trigger] v[k].has_term(i) implies 0 <= i < n by {
                    assert(e.has_term(i));
                }
                lemma_eval_agree(v[k], env1, env2, n);
            }
        },
        Expr::Or(v) => {
            assert forall|k: int| 0 <= k < v.len() implies (#[trigger] v[k]).eval(env1) == v[k].eval(env2) by {
                assert forall|i: int| #[trigger] v[k].has_term(i) implies 0 <= i < n by {
                    assert(e.has_term(i));
                }
                lemma_eval_agree(v[k], env1, env2, n);
            }
        },
        Expr::Not(b) => {
            assert forall|i: int| #[trigger] b.has_term(i) implies 0 <= i < n by {
                assert(e.has_term(i));
            }
            lemma_eval_agree(*b, env1, env2, n);
        },
        _ => {},
    }
}

/// For increasing `vars`, every assignment of the variables `0..vars.len()`
/// is induced by a pin assignment.
pub proof fn lemma_env_of_pins(env: spec_fn(int) -> bool, vars: Seq<usize>) -> (assignment: spec_fn(int) -> bool)
    requires
        strictly_increasing(vars),
    ensures
        forall|i: int| 0 <= i < vars.len() ==> #[trigger] var_env(assignment, vars)(i) == env(i),
{
    let assignment = |x: int| exists|j: int| 0 <= j < vars.len() && vars[j] as int == x && #[trigger] env(j);
    assert forall|i: int| 0 <= i < vars.len() implies #[trigger] var_env(assignment, vars)(i) == env(i) by {
        if env(i) {
            assert(assignment(vars[i] as int));
        } else {
            assert forall|j: int| 0 <= j < vars.len() && vars[j] as int == vars[i] as int implies !env(j) by {
                if j < i {
                    assert(vars[j] < vars[i]);
                } else if j > i {
                    assert(vars[i] < vars[j]);
                }
            }
        }
    }
    assignment
}

} // verus!
