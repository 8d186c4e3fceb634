//! The equation optimizer: minimizes the sum of products of an equation
//! with the Quine-McCluskey method, optionally for both polarities, and
//! turns the results back into equations for display and write-back.
use vstd::prelude::*;

use crate::bool_expr::{has_fewest_products, models, qmc_simplify, qmc_simplify_forms, BoolExpr, Expr};
use crate::chips::{spec_num_pins, Chip};
use crate::errors::LineNum;
use crate::equivalence::{
    lemma_env_of_pins, lemma_eval_agree, lemma_sum_products_eval, lemma_sum_products_pins, lemma_term_expr, var_env,
};
use crate::gal::{literal_count, pin_occurs, pin_set, product_holds, sum_holds, Pin, Term};
use crate::parser::{Equation, Suffix, LHS};

verus! {

/// An improvement found for a term.
#[derive(Clone, Debug)]
pub struct Optimized {
    /// The new term, for the complemented output when `flipped_polarity`.
    pub term: Term,
    /// The term computes the complement of the input term; the output pin
    /// is to be inverted.
    pub flipped_polarity: bool,
    pub products_before: usize,
    pub products_after: usize,
    pub literals_before: usize,
    pub literals_after: usize,
}

// ---------------------------------------------------------------------
// Shapes and sizes of terms
// ---------------------------------------------------------------------

/// The term is the constant true: a single empty product.
pub open spec fn spec_is_true(products: Seq<Seq<Pin>>) -> bool {
    products.len() == 1 && products[0].len() == 0
}

/// The term is the constant false: no product.
pub open spec fn spec_is_false(products: Seq<Seq<Pin>>) -> bool {
    products.len() == 0
}

fn is_true(term: &Term) -> (r: bool)
    ensures
        r == spec_is_true(term.products()),
{
    term.pins.len() == 1 && term.pins[0].len() == 0
}

fn is_false(term: &Term) -> (r: bool)
    ensures
        r == spec_is_false(term.products()),
{
    term.pins.len() == 0
}

proof fn lemma_literal_count_step(products: Seq<Seq<Pin>>, i: int)
    requires
        0 <= i < products.len(),
    ensures
        literal_count(products.take(i + 1)) == literal_count(products.take(i)) + products[i].len(),
{
    assert(products.take(i + 1).drop_last() =~= products.take(i));
}

proof fn lemma_literal_count_prefix(products: Seq<Seq<Pin>>, i: int)
    requires
        0 <= i <= products.len(),
    ensures
        0 <= literal_count(products.take(i)) <= literal_count(products),
    decreases products.len(),
{
    if i == products.len() {
        assert(products.take(i) =~= products);
        lemma_literal_count_nonneg(products);
    } else {
        lemma_literal_count_prefix(products.drop_last(), i);
        assert(products.drop_last().take(i) =~= products.take(i));
    }
}

proof fn lemma_literal_count_nonneg(products: Seq<Seq<Pin>>)
    ensures
        literal_count(products) >= 0,
    decreases products.len(),
{
    if products.len() > 0 {
        lemma_literal_count_nonneg(products.drop_last());
    }
}

/// Counts the products and the literals of a term.
fn count_pl(term: &Term) -> (r: (usize, usize))
    requires
        literal_count(term.products()) <= usize::MAX,
    ensures
        r.0 == term.products().len(),
        r.1 == literal_count(term.products()),
{
    let ghost products = term.products();
    let products_n = term.pins.len();
    let mut literals: usize = 0;
    let mut i: usize = 0;
    assert(products.take(0) =~= Seq::<Seq<Pin>>::empty());
    while i < products_n
        invariant
            products == term.products(),
            products_n == products.len(),
            i <= products_n,
            literals == literal_count(products.take(i as int)),
            literal_count(products) <= usize::MAX,
        decreases products_n - i,
    {
        proof {
            lemma_literal_count_step(products, i as int);
            lemma_literal_count_prefix(products, i + 1);
        }
        literals = literals + term.pins[i].len();
        i = i + 1;
    }
    assert(products.take(products_n as int) =~= products);
    (products_n, literals)
}

/// Counts the products and the literals of a term, or `None` where the
/// literals are more than a `usize` holds.
fn checked_count_pl(term: &Term) -> (r: Option<(usize, usize)>)
    ensures
        r is None <==> literal_count(term.products()) > usize::MAX,
        r matches Some(c) ==> c.0 == term.products().len() && c.1 == literal_count(term.products()),
{
    let ghost products = term.products();
    let products_n = term.pins.len();
    let mut literals: usize = 0;
    let mut i: usize = 0;
    assert(products.take(0) =~= Seq::<Seq<Pin>>::empty());
    while i < products_n
        invariant
            products == term.products(),
            products_n == products.len(),
            i <= products_n,
            literals == literal_count(products.take(i as int)),
        decreases products_n - i,
    {
        proof {
            lemma_literal_count_step(products, i as int);
        }
        match literals.checked_add(term.pins[i].len()) {
            Some(l) => {
                literals = l;
            },
            None => {
                proof {
                    lemma_literal_count_prefix(products, i + 1);
                }
                return None;
            },
        }
        i = i + 1;
    }
    assert(products.take(products_n as int) =~= products);
    Some((products_n, literals))
}

// ---------------------------------------------------------------------
// Rendering equations in galasm syntax
// ---------------------------------------------------------------------

/// The names of the pins as character sequences.
pub open spec fn name_seqs(pin_names: Seq<String>) -> Seq<Seq<char>> {
    pin_names.map_values(|s: String| s@)
}

/// How a pin is shown: its declared name without a leading `/`, preceded
/// by `/` when the pin's negation differs from the declared negation.
pub open spec fn pin_text(pin: Pin, names: Seq<Seq<char>>) -> Seq<char> {
    let raw = names[pin.pin - 1];
    let declared_neg = raw.len() > 0 && raw[0] == '/';
    let bare = if declared_neg {
        raw.drop_first()
    } else {
        raw
    };
    if pin.neg != declared_neg {
        seq!['/'] + bare
    } else {
        bare
    }
}

/// How the suffix of an output pin is written.
pub open spec fn suffix_text(s: Suffix) -> Seq<char> {
    match s {
        Suffix::Plain => seq![],
        Suffix::T => seq!['.', 'T'],
        Suffix::R => seq!['.', 'R'],
        Suffix::E => seq!['.', 'E'],
        Suffix::CLK => seq!['.', 'C', 'L', 'K'],
        Suffix::APRST => seq!['.', 'A', 'P', 'R', 'S', 'T'],
        Suffix::ARST => seq!['.', 'A', 'R', 'S', 'T'],
    }
}

/// How the left-hand side of an equation is written.
pub open spec fn lhs_text(lhs: LHS, names: Seq<Seq<char>>) -> Seq<char> {
    match lhs {
        LHS::Pin((pin, suffix)) => pin_text(pin, names) + suffix_text(suffix),
        LHS::Ar => seq!['A', 'R'],
        LHS::Sp => seq!['S', 'P'],
    }
}

/// The first `n` pins of the right-hand side, each after ` + ` or ` * `
/// as its `is_or` flag says (the first one after nothing).
pub open spec fn rhs_text(rhs: Seq<Pin>, is_or: Seq<bool>, names: Seq<Seq<char>>, n: int) -> Seq<char>
    decreases n,
{
    if n <= 0 {
        seq![]
    } else {
        let sep: Seq<char> = if n - 1 == 0 {
            seq![]
        } else if is_or[n - 1] {
            seq![' ', '+', ' ']
        } else {
            seq![' ', '*', ' ']
        };
        rhs_text(rhs, is_or, names, n - 1) + sep + pin_text(rhs[n - 1], names)
    }
}

/// The number of right-hand-side pins that are shown: as many as have both
/// a pin and an `is_or` flag.
pub open spec fn shown_len(eqn: Equation) -> int {
    if eqn.rhs.len() <= eqn.is_or.len() {
        eqn.rhs.len() as int
    } else {
        eqn.is_or.len() as int
    }
}

/// The whole equation in galasm syntax.
pub open spec fn equation_text(eqn: Equation, names: Seq<Seq<char>>) -> Seq<char> {
    lhs_text(eqn.lhs, names) + seq![' ', '=', ' '] + rhs_text(eqn.rhs@, eqn.is_or@, names, shown_len(eqn))
}

/// Every pin that the rendering of `eqn` looks up has a name.
pub open spec fn pins_named(eqn: Equation, n_names: int) -> bool {
    &&& (eqn.lhs matches LHS::Pin((pin, _)) ==> 1 <= pin.pin <= n_names)
    &&& forall|i: int| 0 <= i < shown_len(eqn) ==> 1 <= (#[trigger] eqn.rhs@[i]).pin <= n_names
}

/// Renders an equation in galasm syntax. The names in `pin_names` already
/// hold a leading `/` for pins declared negative, so a pin is shown with
/// `/` exactly when its own negation differs from the declared one.
pub fn format_equation(eqn: &Equation, pin_names: &[String]) -> (out: String)
    requires
        pins_named(*eqn, pin_names@.len() as int),
    ensures
        out@ == equation_text(*eqn, name_seqs(pin_names@)),
{
    let ghost names = name_seqs(pin_names@);
    let mut out = String::new();
    match &eqn.lhs {
        LHS::Pin((pin, suffix)) => {
            let shown = display_pin(pin, pin_names);
            out.append(shown.as_str());
            out.append(suffix_str(*suffix));
        },
        LHS::Ar => {
            out.append("AR");
            proof {
                reveal_strlit("AR");
            }
        },
        LHS::Sp => {
            out.append("SP");
            proof {
                reveal_strlit("SP");
            }
        },
    }
    assert(out@ =~= lhs_text(eqn.lhs, names));
    out.append(" = ");
    proof {
        reveal_strlit(" = ");
    }
    let ghost head = out@;
    assert(head =~= lhs_text(eqn.lhs, names) + seq![' ', '=', ' ']);

    if eqn.rhs.len() == 0 {
        assert(out@ =~= equation_text(*eqn, names));
        return out;
    }

    let n = if eqn.rhs.len() <= eqn.is_or.len() {
        eqn.rhs.len()
    } else {
        eqn.is_or.len()
    };
    let mut i: usize = 0;
    while i < n
        invariant
            names == name_seqs(pin_names@),
            n == shown_len(*eqn),
            n <= eqn.rhs.len(),
            n <= eqn.is_or.len(),
            i <= n,
            pins_named(*eqn, pin_names@.len() as int),
            out@ == head + rhs_text(eqn.rhs@, eqn.is_or@, names, i as int),
        decreases n - i,
    {
        let ghost before = out@;
        if i > 0 {
            if eqn.is_or[i] {
                out.append(" + ");
                proof {
                    reveal_strlit(" + ");
                }
            } else {
                out.append(" * ");
                proof {
                    reveal_strlit(" * ");
                }
            }
        }
        let shown = display_pin(&eqn.rhs[i], pin_names);
        out.append(shown.as_str());
        assert(out@ =~= head + rhs_text(eqn.rhs@, eqn.is_or@, names, i + 1));
        i = i + 1;
    }
    out
}

fn display_pin(pin: &Pin, pin_names: &[String]) -> (shown: String)
    requires
        1 <= pin.pin <= pin_names@.len(),
    ensures
        shown@ == pin_text(*pin, name_seqs(pin_names@)),
{
    let raw = pin_names[pin.pin - 1].as_str();
    let n = raw.unicode_len();
    let declared_neg = n > 0 && raw.get_char(0) == '/';
    let bare: &str = if declared_neg {
        raw.substring_char(1, n)
    } else {
        raw
    };
    proof {
        reveal_strlit("/");
        if declared_neg {
            assert(bare@ =~= raw@.drop_first());
        }
    }
    if pin.neg != declared_neg {
        let shown = String::from_str("/").concat(bare);
        assert(shown@ =~= pin_text(*pin, name_seqs(pin_names@)));
        shown
    } else {
        String::from_str(bare)
    }
}

fn suffix_str(s: Suffix) -> (text: &'static str)
    ensures
        text@ == suffix_text(s),
{
    match s {
        Suffix::Plain => {
            proof {
                reveal_strlit("");
            }
            ""
        },
        Suffix::T => {
            proof {
                reveal_strlit(".T");
            }
            ".T"
        },
        Suffix::R => {
            proof {
                reveal_strlit(".R");
            }
            ".R"
        },
        Suffix::E => {
            proof {
                reveal_strlit(".E");
            }
            ".E"
        },
        Suffix::CLK => {
            proof {
                reveal_strlit(".CLK");
            }
            ".CLK"
        },
        Suffix::APRST => {
            proof {
                reveal_strlit(".APRST");
            }
            ".APRST"
        },
        Suffix::ARST => {
            proof {
                reveal_strlit(".ARST");
            }
            ".ARST"
        },
    }
}

// ---------------------------------------------------------------------
// Turning terms back into equations
// ---------------------------------------------------------------------

/// For each pin of the products, whether it opens a new OR group: the
/// first pin of every product but the first one (empty products count
/// for their position).
pub open spec fn or_marks(products: Seq<Seq<Pin>>) -> Seq<Seq<bool>> {
    Seq::new(products.len(), |i: int| Seq::new(products[i].len(), |j: int| i > 0 && j == 0))
}

/// The equation with left-hand side `lhs` that `term_to_equation` builds:
/// the constants as a reference to VCC (the last pin) or GND (the middle
/// pin), any other term as its pins in order, with an OR before the first
/// pin of each product after the first.
pub open spec fn equation_of_term(
    products: Seq<Seq<Pin>>,
    chip: Chip,
    rhs: Seq<Pin>,
    is_or: Seq<bool>,
) -> bool {
    if spec_is_true(products) {
        rhs == seq![Pin { pin: spec_num_pins(chip) as usize, neg: false }] && is_or == seq![false]
    } else if spec_is_false(products) {
        rhs == seq![Pin { pin: (spec_num_pins(chip) / 2) as usize, neg: false }] && is_or == seq![false]
    } else {
        rhs == products.flatten() && is_or == or_marks(products).flatten()
    }
}

/// Builds the equation `lhs = term` for display and write-back; `chip`
/// gives the VCC and GND pins that stand for constant terms.
pub fn term_to_equation(term: &Term, lhs: LHS, chip: Chip, line_num: LineNum, end_line: LineNum) -> (eqn: Equation)
    ensures
        eqn.line_num == line_num,
        eqn.end_line == end_line,
        eqn.lhs == lhs,
        equation_of_term(term.products(), chip, eqn.rhs@, eqn.is_or@),
{
    if is_true(term) {
        let mut rhs: Vec<Pin> = Vec::new();
        rhs.push(Pin { pin: chip.num_pins(), neg: false });
        let mut is_or: Vec<bool> = Vec::new();
        is_or.push(false);
        assert(rhs@ =~= seq![Pin { pin: spec_num_pins(chip) as usize, neg: false }]);
        assert(is_or@ =~= seq![false]);
        return Equation { line_num, end_line, lhs, rhs, is_or };
    }
    if is_false(term) {
        let mut rhs: Vec<Pin> = Vec::new();
        rhs.push(Pin { pin: chip.num_pins() / 2, neg: false });
        let mut is_or: Vec<bool> = Vec::new();
        is_or.push(false);
        assert(rhs@ =~= seq![Pin { pin: (spec_num_pins(chip) / 2) as usize, neg: false }]);
        assert(is_or@ =~= seq![false]);
        return Equation { line_num, end_line, lhs, rhs, is_or };
    }

    let ghost products = term.products();
    let ghost marks = or_marks(products);
    let mut rhs: Vec<Pin> = Vec::new();
    let mut is_or: Vec<bool> = Vec::new();
    let mut p_idx: usize = 0;
    assert(products.take(0) =~= Seq::<Seq<Pin>>::empty());
    assert(marks.take(0) =~= Seq::<Seq<bool>>::empty());
    while p_idx < term.pins.len()
        invariant
            products == term.products(),
            marks == or_marks(products),
            p_idx <= products.len(),
            rhs@ == products.take(p_idx as int).flatten(),
            is_or@ == marks.take(p_idx as int).flatten(),
        decreases products.len() - p_idx,
    {
        let product = &term.pins[p_idx];
        if product.len() == 0 {
            proof {
                assert(products.take(p_idx + 1) =~= products.take(p_idx as int).push(products[p_idx as int]));
                assert(marks.take(p_idx + 1) =~= marks.take(p_idx as int).push(marks[p_idx as int]));
                products.take(p_idx as int).lemma_flatten_push(products[p_idx as int]);
                marks.take(p_idx as int).lemma_flatten_push(marks[p_idx as int]);
                assert(products[p_idx as int] =~= Seq::<Pin>::empty());
                assert(marks[p_idx as int] =~= Seq::<bool>::empty());
            }
            p_idx = p_idx + 1;
            continue;
        }
        let ghost rhs0 = rhs@;
        let ghost is_or0 = is_or@;
        let mut l_idx: usize = 0;
        while l_idx < product.len()
            invariant
                products == term.products(),
                marks == or_marks(products),
                p_idx < products.len(),
                product@ == products[p_idx as int],
                l_idx <= product.len(),
                rhs@ == rhs0 + product@.take(l_idx as int),
                is_or@ == is_or0 + marks[p_idx as int].take(l_idx as int),
            decreases product.len() - l_idx,
        {
            let lit = product[l_idx];
            let opens_or_group = p_idx > 0 && l_idx == 0;
            rhs.push(lit);
            is_or.push(opens_or_group);
            assert(rhs@ =~= rhs0 + product@.take(l_idx + 1));
            assert(is_or@ =~= is_or0 + marks[p_idx as int].take(l_idx + 1));
            l_idx = l_idx + 1;
        }
        proof {
            assert(product@.take(l_idx as int) =~= product@);
            assert(marks[p_idx as int].take(l_idx as int) =~= marks[p_idx as int]);
            assert(products.take(p_idx + 1) =~= products.take(p_idx as int).push(products[p_idx as int]));
            assert(marks.take(p_idx + 1) =~= marks.take(p_idx as int).push(marks[p_idx as int]));
            products.take(p_idx as int).lemma_flatten_push(products[p_idx as int]);
            marks.take(p_idx as int).lemma_flatten_push(marks[p_idx as int]);
        }
        p_idx = p_idx + 1;
    }
    assert(products.take(products.len() as int) =~= products);
    assert(marks.take(marks.len() as int) =~= marks);
    Equation { line_num, end_line, lhs, rhs, is_or }
}

proof fn lemma_flatten_lengths(products: Seq<Seq<Pin>>, marks: Seq<Seq<bool>>)
    requires
        products.len() == marks.len(),
        forall|i: int| 0 <= i < products.len() ==> (#[trigger] products[i]).len() == marks[i].len(),
    ensures
        products.flatten().len() == marks.flatten().len(),
    decreases products.len(),
{
    if products.len() > 0 {
        lemma_flatten_lengths(products.drop_first(), marks.drop_first());
    }
}

/// An equation built from a term has an OR/AND flag for every pin, so
/// that rendering it shows all of its pins.
pub proof fn lemma_equation_of_term_lengths(products: Seq<Seq<Pin>>, chip: Chip, rhs: Seq<Pin>, is_or: Seq<bool>)
    requires
        equation_of_term(products, chip, rhs, is_or),
    ensures
        rhs.len() == is_or.len(),
{
    if !spec_is_true(products) && !spec_is_false(products) {
        lemma_flatten_lengths(products, or_marks(products));
    }
}

/// The output pin of `lhs` with its negation inverted (AR and SP, which
/// have no polarity, are left as they are).
pub open spec fn flipped_lhs(lhs: LHS) -> LHS {
    match lhs {
        LHS::Pin((pin, suffix)) => LHS::Pin((Pin { pin: pin.pin, neg: !pin.neg }, suffix)),
        _ => lhs,
    }
}

/// The output pin of `lhs` with its negation inverted; AR and SP have no
/// polarity.
pub fn flip_lhs_polarity(lhs: &LHS) -> (flipped: LHS)
    requires
        lhs is Pin,
    ensures
        flipped == flipped_lhs(*lhs),
{
    match lhs {
        LHS::Pin((pin, suffix)) => LHS::Pin((Pin { pin: pin.pin, neg: !pin.neg }, *suffix)),
        LHS::Ar | LHS::Sp => {
            assert(false);
            *lhs
        },
    }
}

/// Flipping the polarity of an output pin twice gives it back.
pub proof fn lemma_flip_lhs_involution(lhs: LHS)
    requires
        lhs is Pin,
    ensures
        flipped_lhs(flipped_lhs(lhs)) == lhs,
{
}

// ---------------------------------------------------------------------
// Variables: the distinct pins of a term, in increasing order
// ---------------------------------------------------------------------

pub open spec fn strictly_increasing(s: Seq<usize>) -> bool {
    forall|i: int, j: int| 0 <= i < j < s.len() ==> s[i] < s[j]
}

/// `vars` lists the pins that occur in the products, each once, in
/// increasing order.
pub open spec fn is_var_list(vars: Seq<usize>, products: Seq<Seq<Pin>>) -> bool {
    &&& strictly_increasing(vars)
    &&& forall|x: usize| vars.contains(x) <==> pin_occurs(products, x)
}

/// The distinct pins of the products in increasing order.
pub open spec fn spec_unique_vars(products: Seq<Seq<Pin>>) -> Seq<usize> {
    choose|vars: Seq<usize>| is_var_list(vars, products)
}

/// Two increasing sequences with the same elements are equal.
proof fn lemma_increasing_unique(a: Seq<usize>, b: Seq<usize>)
    requires
        strictly_increasing(a),
        strictly_increasing(b),
        forall|x: usize| a.contains(x) <==> b.contains(x),
    ensures
        a == b,
    decreases a.len(),
{
    if a.len() == 0 {
        if b.len() > 0 {
            assert(b.contains(b[0]));
        }
        assert(a =~= b);
    } else {
        assert(a.contains(a[0]));
        assert(b.len() > 0);
        assert(b.contains(b[0]));
        assert(a[0] == b[0]) by {
            let i = choose|i: int| 0 <= i < a.len() && a[i] == b[0];
            let j = choose|j: int| 0 <= j < b.len() && b[j] == a[0];
            if a[0] < b[0] {
                assert(b[j] < b[0] || j == 0);
            } else if b[0] < a[0] {
                assert(a[i] < a[0] || i == 0);
            }
        }
        let a1 = a.drop_first();
        let b1 = b.drop_first();
        assert forall|x: usize| a1.contains(x) <==> b1.contains(x) by {
            if a1.contains(x) {
                let i = choose|i: int| 0 <= i < a1.len() && a1[i] == x;
                assert(a[i + 1] == x);
                assert(b.contains(x));
                let j = choose|j: int| 0 <= j < b.len() && b[j] == x;
                assert(j != 0);
                assert(b1[j - 1] == x);
            }
            if b1.contains(x) {
                let j = choose|j: int| 0 <= j < b1.len() && b1[j] == x;
                assert(b[j + 1] == x);
                assert(a.contains(x));
                let i = choose|i: int| 0 <= i < a.len() && a[i] == x;
                assert(i != 0);
                assert(a1[i - 1] == x);
            }
        }
        lemma_increasing_unique(a1, b1);
        assert(a.len() == b.len());
        assert forall|i: int| 0 <= i < a.len() implies a[i] == b[i] by {
            if i > 0 {
                assert(a[i] == a1[i - 1]);
                assert(b[i] == b1[i - 1]);
            }
        }
        assert(a =~= b);
    }
}

/// Inserts `pin` into the increasing `vars`, keeping it increasing and
/// free of repeats.
fn insert_var(vars: &mut Vec<usize>, pin: usize)
    requires
        strictly_increasing(old(vars)@),
    ensures
        strictly_increasing(final(vars)@),
        forall|x: usize| final(vars)@.contains(x) <==> (old(vars)@.contains(x) || x == pin),
{
    let mut i: usize = 0;
    while i < vars.len() && vars[i] < pin
        invariant
            vars@ == old(vars)@,
            i <= vars.len(),
            forall|k: int| 0 <= k < i ==> vars@[k] < pin,
        decreases vars.len() - i,
    {
        i = i + 1;
    }
    if i < vars.len() && vars[i] == pin {
        assert(vars@.contains(pin));
        return;
    }
    let ghost before = vars@;
    vars.insert(i, pin);
    assert(vars@ =~= before.take(i as int).push(pin) + before.skip(i as int));
    assert(before == old(vars)@);
    assert forall|x: usize| vars@.contains(x) <==> (old(vars)@.contains(x) || x == pin) by {
        if vars@.contains(x) {
            let k = choose|k: int| 0 <= k < vars@.len() && vars@[k] == x;
            if k < i {
                assert(before[k] == x);
            } else if k > i {
                assert(before[k - 1] == x);
            }
        }
        if before.contains(x) {
            let k = choose|k: int| 0 <= k < before.len() && before[k] == x;
            if k < i {
                assert(vars@[k] == x);
            } else {
                assert(vars@[k + 1] == x);
            }
        }
        if x == pin {
            assert(vars@[i as int] == x);
        }
    }
}

/// The pin occurs in the first `l` pins of the product.
pub open spec fn product_has_pin(product: Seq<Pin>, l: int, x: usize) -> bool {
    exists|j: int| 0 <= j < l && (#[trigger] product[j]).pin == x
}

proof fn lemma_pin_occurs_step(products: Seq<Seq<Pin>>, p: int, x: usize)
    requires
        0 <= p < products.len(),
    ensures
        pin_occurs(products.take(p + 1), x) <==> (pin_occurs(products.take(p), x) || product_has_pin(
            products[p],
            products[p].len() as int,
            x,
        )),
{
    let t1 = products.take(p + 1);
    let t0 = products.take(p);
    if pin_occurs(t1, x) {
        let (i, j) = choose|i: int, j: int|
            0 <= i < t1.len() && 0 <= j < t1[i].len() && (#[trigger] t1[i][j]).pin == x;
        if i < p {
            assert(t0[i][j].pin == x);
        } else {
            assert(products[p][j].pin == x);
        }
    }
    if pin_occurs(t0, x) {
        let (i, j) = choose|i: int, j: int|
            0 <= i < t0.len() && 0 <= j < t0[i].len() && (#[trigger] t0[i][j]).pin == x;
        assert(t1[i][j].pin == x);
    }
    if product_has_pin(products[p], products[p].len() as int, x) {
        let j = choose|j: int| 0 <= j < products[p].len() && (#[trigger] products[p][j]).pin == x;
        assert(t1[p][j].pin == x);
    }
}

/// The distinct pins of a term in increasing order: the variables of the
/// boolean expression, `Term(i)` standing for pin `vars[i]`.
pub fn unique_vars(term: &Term) -> (vars: Vec<usize>)
    ensures
        is_var_list(vars@, term.products()),
        vars@ == spec_unique_vars(term.products()),
{
    let ghost products = term.products();
    let mut vars: Vec<usize> = Vec::new();
    let mut p: usize = 0;
    while p < term.pins.len()
        invariant
            products == term.products(),
            p <= products.len(),
            strictly_increasing(vars@),
            forall|x: usize| vars@.contains(x) <==> pin_occurs(products.take(p as int), x),
        decreases products.len() - p,
    {
        let product = &term.pins[p];
        let mut l: usize = 0;
        while l < product.len()
            invariant
                products == term.products(),
                p < products.len(),
                product@ == products[p as int],
                l <= product.len(),
                strictly_increasing(vars@),
                forall|x: usize|
                    vars@.contains(x) <==> (pin_occurs(products.take(p as int), x) || product_has_pin(
                        product@,
                        l as int,
                        x,
                    )),
            decreases product.len() - l,
        {
            let ghost before = vars@;
            insert_var(&mut vars, product[l].pin);
            assert forall|x: usize|
                vars@.contains(x) <==> (pin_occurs(products.take(p as int), x) || product_has_pin(
                    product@,
                    l + 1,
                    x,
                )) by {
                if product_has_pin(product@, l + 1, x) && !product_has_pin(product@, l as int, x) {
                    let j = choose|j: int| 0 <= j < l + 1 && (#[trigger] product@[j]).pin == x;
                    assert(j == l);
                }
                if x == product@[l as int].pin {
                    assert(product_has_pin(product@, l + 1, x));
                }
                if product_has_pin(product@, l as int, x) {
                    let j = choose|j: int| 0 <= j < l && (#[trigger] product@[j]).pin == x;
                    assert(product_has_pin(product@, l + 1, x));
                }
            }
            l = l + 1;
        }
        assert forall|x: usize| vars@.contains(x) <==> pin_occurs(products.take(p + 1), x) by {
            lemma_pin_occurs_step(products, p as int, x);
        }
        p = p + 1;
    }
    assert(products.take(products.len() as int) =~= products);
    proof {
        assert(is_var_list(vars@, products));
        lemma_increasing_unique(vars@, spec_unique_vars(products));
    }
    vars
}

/// The first position of `pin` in `vars`.
pub open spec fn first_index(vars: Seq<usize>, pin: usize) -> int {
    choose|i: int| 0 <= i < vars.len() && vars[i] == pin && forall|k: int| 0 <= k < i ==> vars[k] != pin
}

proof fn lemma_first_index(vars: Seq<usize>, pin: usize, i: int)
    requires
        0 <= i < vars.len(),
        vars[i] == pin,
        forall|k: int| 0 <= k < i ==> vars[k] != pin,
    ensures
        first_index(vars, pin) == i,
{
    let j = first_index(vars, pin);
    assert(0 <= j < vars.len() && vars[j] == pin && forall|k: int| 0 <= k < j ==> vars[k] != pin);
    if j < i {
    } else if j > i {
    }
}

pub proof fn lemma_first_index_increasing(vars: Seq<usize>, i: int)
    requires
        strictly_increasing(vars),
        0 <= i < vars.len(),
    ensures
        first_index(vars, vars[i]) == i,
{
    lemma_first_index(vars, vars[i], i);
}

/// The variable number of `pin`: its position in `vars`, as a `u8`.
fn idx_of(vars: &[usize], pin: usize) -> (idx: u8)
    requires
        vars@.contains(pin),
    ensures
        idx == first_index(vars@, pin) as u8,
{
    let mut i: usize = 0;
    while vars[i] != pin
        invariant
            i < vars@.len(),
            forall|k: int| 0 <= k < i ==> vars@[k] != pin,
            exists|j: int| i <= j < vars@.len() && vars@[j] == pin,
        decreases vars@.len() - i,
    {
        i = i + 1;
    }
    proof {
        lemma_first_index(vars@, pin, i as int);
    }
    #[verifier::truncate]
    (i as u8)
}

// ---------------------------------------------------------------------
// From terms to boolean expressions
// ---------------------------------------------------------------------

/// The expression of one pin: its variable, negated when the pin is.
pub open spec fn literal_expr(pin: Pin, vars: Seq<usize>) -> Expr {
    let t = Expr::Term((first_index(vars, pin.pin) as u8) as int);
    if pin.neg {
        Expr::Not(Box::new(t))
    } else {
        t
    }
}

/// The expression of a product: `True` when empty, the literal itself
/// when alone, else the `And` of its literals.
pub open spec fn product_expr(product: Seq<Pin>, vars: Seq<usize>) -> Expr {
    if product.len() == 0 {
        Expr::True
    } else if product.len() == 1 {
        literal_expr(product[0], vars)
    } else {
        Expr::And(product.map_values(|p: Pin| literal_expr(p, vars)))
    }
}

/// The expression of a sum of products: `False` when empty, the product
/// itself when alone, else the `Or` of its products.
pub open spec fn term_expr(products: Seq<Seq<Pin>>, vars: Seq<usize>) -> Expr {
    if products.len() == 0 {
        Expr::False
    } else if products.len() == 1 {
        product_expr(products[0], vars)
    } else {
        Expr::Or(products.map_values(|p: Seq<Pin>| product_expr(p, vars)))
    }
}

proof fn lemma_model_and(v: Vec<BoolExpr>)
    ensures
        BoolExpr::And(v)@ == Expr::And(models(v@)),
{
    match BoolExpr::And(v).model() {
        Expr::And(s) => {
            assert(s =~= models(v@));
        },
        _ => {},
    }
}

proof fn lemma_model_or(v: Vec<BoolExpr>)
    ensures
        BoolExpr::Or(v)@ == Expr::Or(models(v@)),
{
    match BoolExpr::Or(v).model() {
        Expr::Or(s) => {
            assert(s =~= models(v@));
        },
        _ => {},
    }
}

/// The conjunction of `items`; a single item stands for itself.
fn wrap_and(items: Vec<BoolExpr>) -> (b: BoolExpr)
    ensures
        items.len() == 1 ==> b@ == items@[0]@,
        items.len() != 1 ==> b@ == Expr::And(models(items@)),
{
    let mut items = items;
    if items.len() == 1 {
        let ghost first = items@[0];
        let b = items.pop().unwrap();
        assert(b == first);
        b
    } else {
        proof {
            lemma_model_and(items);
        }
        BoolExpr::And(items)
    }
}

/// The disjunction of `items`; a single item stands for itself.
fn wrap_or(items: Vec<BoolExpr>) -> (b: BoolExpr)
    ensures
        items.len() == 1 ==> b@ == items@[0]@,
        items.len() != 1 ==> b@ == Expr::Or(models(items@)),
{
    let mut items = items;
    if items.len() == 1 {
        let ghost first = items@[0];
        let b = items.pop().unwrap();
        assert(b == first);
        b
    } else {
        proof {
            lemma_model_or(items);
        }
        BoolExpr::Or(items)
    }
}

fn pin_to_bool(pin: &Pin, vars: &[usize]) -> (b: BoolExpr)
    requires
        vars@.contains(pin.pin),
    ensures
        b@ == literal_expr(*pin, vars@),
{
    let term = BoolExpr::Term(idx_of(vars, pin.pin));
    assert(term@ == literal_expr(Pin { pin: pin.pin, neg: false }, vars@));
    if pin.neg {
        BoolExpr::Not(Box::new(term))
    } else {
        term
    }
}

/// Every pin of the products is one of `vars`.
pub open spec fn vars_cover(products: Seq<Seq<Pin>>, vars: Seq<usize>) -> bool {
    forall|x: usize| pin_occurs(products, x) ==> vars.contains(x)
}

/// The boolean expression of a term, pin `vars[i]` standing for variable
/// `i`.
pub fn term_to_bool(term: &Term, vars: &[usize]) -> (b: BoolExpr)
    requires
        vars_cover(term.products(), vars@),
    ensures
        b@ == term_expr(term.products(), vars@),
        is_var_list(vars@, term.products()) && vars@.len() <= 256 && round_trip_shape(term.products()) ==> {
            &&& b@.is_sum_of_products()
            &&& terms_below(b@, vars@.len() as int)
            &&& sum_products(b@, vars@) == term.products()
        },
{
    let ghost products = term.products();
    proof {
        if is_var_list(vars@, products) && vars@.len() <= 256 && round_trip_shape(products) {
            lemma_term_round_trip(products, vars@);
        }
    }
    if term.pins.len() == 0 {
        return BoolExpr::False;
    }
    let mut exprs: Vec<BoolExpr> = Vec::new();
    let mut p: usize = 0;
    while p < term.pins.len()
        invariant
            products == term.products(),
            vars_cover(products, vars@),
            p <= products.len(),
            exprs@.len() == p,
            forall|k: int| 0 <= k < p ==> (#[trigger] exprs@[k])@ == product_expr(products[k], vars@),
        decreases products.len() - p,
    {
        let product = &term.pins[p];
        if product.len() == 0 {
            exprs.push(BoolExpr::True);
        } else {
            let mut literals: Vec<BoolExpr> = Vec::new();
            let mut l: usize = 0;
            while l < product.len()
                invariant
                    products == term.products(),
                    vars_cover(products, vars@),
                    p < products.len(),
                    product@ == products[p as int],
                    l <= product.len(),
                    literals@.len() == l,
                    forall|k: int|
                        0 <= k < l ==> (#[trigger] literals@[k])@ == literal_expr(product@[k], vars@),
                decreases product.len() - l,
            {
                assert(pin_occurs(products, product@[l as int].pin)) by {
                    assert(products[p as int][l as int] == product@[l as int]);
                }
                literals.push(pin_to_bool(&product[l], vars));
                l = l + 1;
            }
            let ghost lits = literals@;
            let e = wrap_and(literals);
            proof {
                if product.len() != 1 {
                    assert(models(lits) =~= product@.map_values(|q: Pin| literal_expr(q, vars@)));
                }
            }
            exprs.push(e);
        }
        p = p + 1;
    }
    let ghost all = exprs@;
    let b = wrap_or(exprs);
    proof {
        if products.len() != 1 {
            assert(models(all) =~= products.map_values(|q: Seq<Pin>| product_expr(q, vars@)));
        }
    }
    b
}

// ---------------------------------------------------------------------
// From minimized expressions back to terms
// ---------------------------------------------------------------------

/// The pin of a literal: `vars[i]`, negated for `Not(Term(i))`.
pub open spec fn literal_pin(e: Expr, vars: Seq<usize>) -> Pin {
    match e {
        Expr::Term(i) => Pin { pin: vars[i], neg: false },
        Expr::Not(inner) => match *inner {
            Expr::Term(i) => Pin { pin: vars[i], neg: true },
            _ => Pin { pin: 0, neg: false },
        },
        _ => Pin { pin: 0, neg: false },
    }
}

/// The pins of a product: one for a literal, one per operand of an `And`.
pub open spec fn product_pins(e: Expr, vars: Seq<usize>) -> Seq<Pin> {
    match e {
        Expr::And(v) => v.map_values(|l: Expr| literal_pin(l, vars)),
        _ => seq![literal_pin(e, vars)],
    }
}

/// The products of a minimized expression: one empty product for `True`,
/// none for `False`, one per operand of an `Or`, else the expression as a
/// single product.
pub open spec fn sum_products(e: Expr, vars: Seq<usize>) -> Seq<Seq<Pin>> {
    match e {
        Expr::True => seq![seq![]],
        Expr::False => seq![],
        Expr::Or(v) => v.map_values(|p: Expr| product_pins(p, vars)),
        _ => seq![product_pins(e, vars)],
    }
}

/// Every variable of `e` has a pin in `vars`.
pub open spec fn terms_below(e: Expr, n: int) -> bool {
    forall|i: int| #[trigger] e.has_term(i) ==> 0 <= i < n
}

/// The term of a minimized expression.
pub fn bool_to_term(b: &BoolExpr, vars: &[usize], line_num: LineNum) -> (t: Term)
    requires
        b@.is_sum_of_products(),
        terms_below(b@, vars@.len() as int),
    ensures
        t.line_num == line_num,
        t.products() == sum_products(b@, vars@),
{
    match b {
        BoolExpr::True => {
            let t = crate::gal::true_term(line_num);
            assert(t.products() =~= sum_products(b@, vars@));
            t
        },
        BoolExpr::False => {
            let t = crate::gal::false_term(line_num);
            assert(t.products() =~= sum_products(b@, vars@));
            t
        },
        BoolExpr::Term(_) | BoolExpr::Not(_) | BoolExpr::And(_) => {
            let product = bool_to_product(b, vars);
            let mut pins: Vec<Vec<Pin>> = Vec::new();
            pins.push(product);
            let t = Term { line_num, pins };
            assert(t.products() =~= sum_products(b@, vars@));
            t
        },
        BoolExpr::Or(items) => {
            proof {
                lemma_model_or(*items);
            }
            let mut products: Vec<Vec<Pin>> = Vec::new();
            let mut k: usize = 0;
            while k < items.len()
                invariant
                    b@ == Expr::Or(models(items@)),
                    b@.is_sum_of_products(),
                    terms_below(b@, vars@.len() as int),
                    k <= items.len(),
                    products@.len() == k,
                    forall|j: int|
                        0 <= j < k ==> (#[trigger] products@[j])@ == product_pins(items@[j]@, vars@),
                decreases items.len() - k,
            {
                assert(b@->Or_0 == models(items@));
                assert(models(items@)[k as int] == items@[k as int]@);
                assert(models(items@)[k as int].is_product());
                assert(items@[k as int]@.is_product());
                assert(terms_below(items@[k as int]@, vars@.len() as int)) by {
                    assert forall|i: int| #[trigger] items@[k as int]@.has_term(i) implies 0 <= i
                        < vars@.len() by {
                        assert(models(items@)[k as int].has_term(i));
                        assert(Expr::Or(models(items@)).has_term(i));
                        assert(b@.has_term(i));
                    }
                }
                products.push(bool_to_product(&items[k], vars));
                k = k + 1;
            }
            let t = Term { line_num, pins: products };
            assert(t.products() =~= sum_products(b@, vars@));
            t
        },
    }
}

/// The pins of a product of literals.
fn bool_to_product(b: &BoolExpr, vars: &[usize]) -> (product: Vec<Pin>)
    requires
        b@.is_product(),
        terms_below(b@, vars@.len() as int),
    ensures
        product@ == product_pins(b@, vars@),
    decreases b,
{
    match b {
        BoolExpr::Term(i) => {
            assert(b@.has_term(*i as int));
            let mut product: Vec<Pin> = Vec::new();
            product.push(Pin { pin: vars[*i as usize], neg: false });
            assert(product@ =~= product_pins(b@, vars@));
            product
        },
        BoolExpr::Not(inner) => match &**inner {
            BoolExpr::Term(i) => {
                assert(inner@ == Expr::Term(*i as int));
                assert(b@ == Expr::Not(Box::new(inner@)));
                assert(inner@.has_term(*i as int));
                assert(b@->Not_0 == Box::new(inner@));
                assert(b@.has_term(*i as int));
                let mut product: Vec<Pin> = Vec::new();
                product.push(Pin { pin: vars[*i as usize], neg: true });
                assert(product@ =~= product_pins(b@, vars@));
                product
            },
            _ => {
                assert(false);
                Vec::new()
            },
        },
        BoolExpr::And(items) => {
            proof {
                lemma_model_and(*items);
            }
            let mut product: Vec<Pin> = Vec::new();
            let mut k: usize = 0;
            while k < items.len()
                invariant
                    *b == BoolExpr::And(*items),
                    b@ == Expr::And(models(items@)),
                    b@.is_product(),
                    terms_below(b@, vars@.len() as int),
                    k <= items.len(),
                    product@.len() == k,
                    forall|j: int| 0 <= j < k ==> product@[j] == literal_pin(items@[j]@, vars@),
                decreases items.len() - k,
            {
                assert(b@->And_0 == models(items@));
                assert(models(items@)[k as int] == items@[k as int]@);
                assert(models(items@)[k as int].is_literal());
                assert(items@[k as int]@.is_literal());
                assert(terms_below(items@[k as int]@, vars@.len() as int)) by {
                    assert forall|i: int| #[trigger] items@[k as int]@.has_term(i) implies 0 <= i
                        < vars@.len() by {
                        assert(models(items@)[k as int].has_term(i));
                        assert(Expr::And(models(items@)).has_term(i));
                        assert(b@.has_term(i));
                    }
                }
                proof {
                    assert(decreases_to!(*b => *items));
                    assert(decreases_to!(*items => items[k as int])) by {
                        broadcast use vstd::std_specs::vec::axiom_vec_index_decreases;
                    }
                    assert(decreases_to!(*b => items@[k as int]));
                }
                let p = bool_to_product(&items[k], vars);
                product.push(p[0]);
                k = k + 1;
            }
            assert(product@ =~= product_pins(b@, vars@));
            product
        },
        _ => {
            assert(false);
            Vec::new()
        },
    }
}

// ---------------------------------------------------------------------
// Minimization and the choice between polarities
// ---------------------------------------------------------------------

/// The first minimal form that the minimizer gives for `b`.
fn pick_simplified(b: &BoolExpr) -> (f: BoolExpr)
    requires
        b@.well_formed(),
        b@.dense_terms(),
    ensures
        f@ == qmc_simplify(b@)[0],
        f@.is_sum_of_products(),
        forall|i: int| #[trigger] f@.has_term(i) ==> b@.has_term(i),
        forall|env: spec_fn(int) -> bool| #[trigger] f@.eval(env) == b@.eval(env),
        has_fewest_products(f@, b@),
{
    let mut forms = qmc_simplify_forms(b);
    let ghost all = forms@;
    assert(models(all)[0] == all[0]@);
    let f = forms.swap_remove(0);
    assert(f == all[0]);
    assert forall|i: int| #[trigger] f@.has_term(i) implies b@.has_term(i) by {
        assert(all[0]@.has_term(i));
    }
    assert forall|env: spec_fn(int) -> bool| #[trigger] f@.eval(env) == b@.eval(env) by {
        assert(all[0]@.eval(env) == b@.eval(env));
    }
    assert(has_fewest_products(all[0]@, b@));
    f
}

/// Sizes are compared by products first, then by literals.
pub open spec fn size_lt(a: (int, int), b: (int, int)) -> bool {
    a.0 < b.0 || (a.0 == b.0 && a.1 < b.1)
}

/// The size of a sum of products: its products and its literals.
pub open spec fn term_size(products: Seq<Seq<Pin>>) -> (int, int) {
    (products.len() as int, literal_count(products))
}

/// Which term wins: the input wins every tie (no suggestion that changes
/// nothing), the minimized form of the same polarity wins a tie with the
/// complemented one. `None` when the input wins, else the winning products
/// and whether they are the complemented ones.
pub open spec fn best_choice(
    input: Seq<Seq<Pin>>,
    orig: Seq<Seq<Pin>>,
    flipped: Option<Seq<Seq<Pin>>>,
) -> Option<(Seq<Seq<Pin>>, bool)> {
    let best_size = if size_lt(term_size(orig), term_size(input)) {
        term_size(orig)
    } else {
        term_size(input)
    };
    if flipped is Some && size_lt(term_size(flipped->0), best_size) {
        Some((flipped->0, true))
    } else if size_lt(term_size(orig), term_size(input)) {
        Some((orig, false))
    } else {
        None
    }
}

/// The products of an optional minimized form of the complement.
pub open spec fn flipped_products(flipped: Option<Expr>, vars: Seq<usize>) -> Option<Seq<Seq<Pin>>> {
    match flipped {
        Some(f) => Some(sum_products(f, vars)),
        None => None,
    }
}

/// `o` is the improvement `choice` for `term`, with the sizes counted.
pub open spec fn describes(o: Optimized, term: Term, choice: (Seq<Seq<Pin>>, bool)) -> bool {
    &&& o.term.products() == choice.0
    &&& o.term.line_num == term.line_num
    &&& o.flipped_polarity == choice.1
    &&& o.products_before == term.products().len()
    &&& o.literals_before == literal_count(term.products())
    &&& o.products_after == choice.0.len()
    &&& o.literals_after == literal_count(choice.0)
}

/// The sizes of the minimized forms fit in a `usize`.
pub open spec fn sizes_fit(orig: Seq<Seq<Pin>>, flipped: Option<Seq<Seq<Pin>>>) -> bool {
    &&& literal_count(orig) <= usize::MAX
    &&& (flipped matches Some(f) ==> literal_count(f) <= usize::MAX)
}

/// The result of choosing between `input` and its minimized forms:
/// `None` when a minimized form has more literals than a `usize` holds,
/// else as [`best_choice`] says.
pub open spec fn choice_outcome(
    r: Option<Optimized>,
    term: Term,
    orig: Seq<Seq<Pin>>,
    flipped: Option<Seq<Seq<Pin>>>,
) -> bool {
    if !sizes_fit(orig, flipped) {
        r is None
    } else {
        match best_choice(term.products(), orig, flipped) {
            Some(choice) => r matches Some(o) && describes(o, term, choice),
            None => r is None,
        }
    }
}

enum Choice {
    Input,
    OrigPolarity,
    Flipped,
}

/// Given the minimized form `orig` of a term and, where the polarity may be
/// flipped, the minimized form `flipped` of its complement (both over the
/// variables `vars`), returns the improvement that is strictly smaller
/// than the input in (products, literals), or `None` when the input is
/// already smallest.
pub fn choose_optimized(term: &Term, vars: &[usize], orig: &BoolExpr, flipped: Option<&BoolExpr>) -> (r: Option<Optimized>)
    requires
        literal_count(term.products()) <= usize::MAX,
        orig@.is_sum_of_products(),
        terms_below(orig@, vars@.len() as int),
        flipped matches Some(f) ==> f@.is_sum_of_products() && terms_below(f@, vars@.len() as int),
    ensures
        choice_outcome(
            r,
            *term,
            sum_products(orig@, vars@),
            flipped_products(
                match flipped {
                    Some(f) => Some(f@),
                    None => None,
                },
                vars@,
            ),
        ),
{
    let (p_in, l_in) = count_pl(term);
    let term_orig = bool_to_term(orig, vars, term.line_num);
    let (p_orig, l_orig) = match checked_count_pl(&term_orig) {
        Some(c) => c,
        None => return None,
    };
    let flip_candidate = match flipped {
        Some(f) => {
            let term_flipped = bool_to_term(f, vars, term.line_num);
            let (p_flip, l_flip) = match checked_count_pl(&term_flipped) {
                Some(c) => c,
                None => return None,
            };
            Some((term_flipped, p_flip, l_flip))
        },
        None => None,
    };

    // The input wins all ties (no suggestion that changes nothing); the
    // same polarity wins a tie with the flipped one (the left-hand side
    // keeps its sign).
    let mut best = Choice::Input;
    let mut best_pl = (p_in, l_in);
    if p_orig < best_pl.0 || (p_orig == best_pl.0 && l_orig < best_pl.1) {
        best = Choice::OrigPolarity;
        best_pl = (p_orig, l_orig);
    }
    if let Some((_, p_flip, l_flip)) = &flip_candidate {
        if *p_flip < best_pl.0 || (*p_flip == best_pl.0 && *l_flip < best_pl.1) {
            best = Choice::Flipped;
            best_pl = (*p_flip, *l_flip);
        }
    }

    match best {
        Choice::Input => None,
        Choice::OrigPolarity => Some(
            Optimized {
                term: term_orig,
                flipped_polarity: false,
                products_before: p_in,
                products_after: best_pl.0,
                literals_before: l_in,
                literals_after: best_pl.1,
            },
        ),
        Choice::Flipped => {
            let (term_flipped, _, _) = flip_candidate.unwrap();
            Some(
                Optimized {
                    term: term_flipped,
                    flipped_polarity: true,
                    products_before: p_in,
                    products_after: best_pl.0,
                    literals_before: l_in,
                    literals_after: best_pl.1,
                },
            )
        },
    }
}

// ---------------------------------------------------------------------
// Optimizing a term
// ---------------------------------------------------------------------

/// A term is worth minimizing: it is not a constant and it has a pin.
pub open spec fn optimizable(products: Seq<Seq<Pin>>) -> bool {
    &&& !spec_is_true(products)
    &&& !spec_is_false(products)
    &&& spec_unique_vars(products).len() > 0
}

/// The boolean expression of a term over its distinct pins.
pub open spec fn input_expr(products: Seq<Seq<Pin>>) -> Expr {
    term_expr(products, spec_unique_vars(products))
}

/// The products of the first minimal form of the term.
pub open spec fn orig_products(products: Seq<Seq<Pin>>) -> Seq<Seq<Pin>> {
    sum_products(qmc_simplify(input_expr(products))[0], spec_unique_vars(products))
}

/// The products of the first minimal form of the term's complement, where
/// the polarity may be flipped.
pub open spec fn flip_products(products: Seq<Seq<Pin>>, allow_flip: bool) -> Option<Seq<Seq<Pin>>> {
    if allow_flip {
        Some(
            sum_products(
                qmc_simplify(Expr::Not(Box::new(input_expr(products))))[0],
                spec_unique_vars(products),
            ),
        )
    } else {
        None
    }
}

/// The products `q` compute the function of `products`, or its complement
/// when `complement`.
pub open spec fn computes(q: Seq<Seq<Pin>>, products: Seq<Seq<Pin>>, complement: bool) -> bool {
    forall|a: spec_fn(int) -> bool| #[trigger] sum_holds(q, a) == (sum_holds(products, a) != complement)
}

/// Every pin of `q` is a pin of `products`.
pub open spec fn uses_pins_of(q: Seq<Seq<Pin>>, products: Seq<Seq<Pin>>) -> bool {
    forall|x: usize| pin_occurs(q, x) ==> pin_occurs(products, x)
}

/// A form with the fewest products among the sums with the value of the
/// term's expression (or of its complement) has, as a term, no more
/// products than any sum of products over the term's pins that computes
/// the same function.
proof fn lemma_fewest_products(products: Seq<Seq<Pin>>, vars: Seq<usize>, f: Expr, complement: bool, q: Seq<Seq<Pin>>)
    requires
        is_var_list(vars, products),
        vars.len() <= 31,
        has_fewest_products(
            f,
            if complement {
                Expr::Not(Box::new(term_expr(products, vars)))
            } else {
                term_expr(products, vars)
            },
        ),
        uses_pins_of(q, products),
        computes(q, products, complement),
    ensures
        sum_products(f, vars).len() <= q.len(),
{
    let n = vars.len() as int;
    let e_in = term_expr(products, vars);
    let target = if complement {
        Expr::Not(Box::new(e_in))
    } else {
        e_in
    };
    lemma_term_expr(products, vars, |i: int| false);
    assert(terms_below(e_in, n));
    assert(sum_products(f, vars).len() == f.product_count());
    if round_trip_shape(q) {
        assert(vars_cover(q, vars));
        lemma_term_round_trip(q, vars);
        let e_q = term_expr(q, vars);
        assert forall|env: spec_fn(int) -> bool| #[trigger] e_q.eval(env) == target.eval(env) by {
            let a = lemma_env_of_pins(env, vars);
            let env2 = var_env(a, vars);
            lemma_eval_agree(e_q, env, env2, n);
            lemma_eval_agree(e_in, env, env2, n);
            lemma_sum_products_eval(e_q, vars, a);
            lemma_term_expr(products, vars, a);
            assert(sum_holds(q, a) == (sum_holds(products, a) != complement));
        }
        assert(f.product_count() <= e_q.product_count());
        assert(e_q.product_count() == sum_products(e_q, vars).len());
    } else {
        let k = choose|k: int| 0 <= k < q.len() && (#[trigger] q[k]).len() == 0;
        assert(q.len() >= 2);
        assert forall|env: spec_fn(int) -> bool| #[trigger] Expr::True.eval(env) == target.eval(env) by {
            let a = lemma_env_of_pins(env, vars);
            let env2 = var_env(a, vars);
            lemma_eval_agree(e_in, env, env2, n);
            lemma_term_expr(products, vars, a);
            assert(product_holds(q[k], a));
            assert(sum_holds(q, a) == (sum_holds(products, a) != complement));
        }
        assert(f.product_count() <= Expr::True.product_count());
    }
}

/// Looks for a term that is strictly smaller than `term` in (products,
/// literals) and computes the same function, or, when `allow_flip` (not
/// for AR/SP, which have no polarity), the complement of it. The input
/// wins all ties and the same polarity wins a tie with the flipped one.
/// Constants and terms without pins give `None`. A suggestion has no more
/// products than any sum of products over the term's pins that computes
/// the same function (or, when flipped, its complement).
pub fn optimize_term(term: &Term, allow_flip: bool) -> (r: Option<Optimized>)
    requires
        literal_count(term.products()) <= usize::MAX,
        pin_set(term.products()).len() <= 31,
    ensures
        !optimizable(term.products()) ==> r is None,
        optimizable(term.products()) ==> choice_outcome(
            r,
            *term,
            orig_products(term.products()),
            flip_products(term.products(), allow_flip),
        ),
        r matches Some(o) ==> size_lt(
            (o.products_after as int, o.literals_after as int),
            (o.products_before as int, o.literals_before as int),
        ),
        r matches Some(o) && o.flipped_polarity ==> allow_flip,
        r matches Some(o) ==> forall|x: usize|
            #[trigger] pin_occurs(o.term.products(), x) ==> pin_occurs(term.products(), x),
        r matches Some(o) ==> forall|assignment: spec_fn(int) -> bool|
            #[trigger] sum_holds(o.term.products(), assignment) == (sum_holds(term.products(), assignment)
                != o.flipped_polarity),
        r matches Some(o) ==> forall|q: Seq<Seq<Pin>>|
            uses_pins_of(q, term.products()) && #[trigger] computes(q, term.products(), o.flipped_polarity)
                ==> o.products_after <= q.len(),
{
    let ghost products = term.products();
    if is_true(term) || is_false(term) {
        return None;
    }
    let vars = unique_vars(term);
    if vars.len() == 0 {
        return None;
    }
    proof {
        assert(vars@.to_set() =~= pin_set(products));
        assert(vars@.no_duplicates());
        vars@.unique_seq_to_set();
    }
    let bool_in = term_to_bool(term, vars.as_slice());
    let ghost e_in = bool_in@;
    proof {
        lemma_term_expr(products, vars@, |i: int| false);
        assert(e_in.terms_are_first(vars@.len() as int));
    }
    let bool_orig = pick_simplified(&bool_in);
    proof {
        assert forall|i: int| #[trigger] bool_orig@.has_term(i) implies 0 <= i < vars@.len() by {
            assert(e_in.has_term(i));
        }
    }
    let bool_flipped = if allow_flip {
        let not_in = BoolExpr::Not(Box::new(bool_in));
        assert(not_in@ == Expr::Not(Box::new(e_in)));
        assert(not_in@.well_formed());
        assert forall|i: int| #[trigger] not_in@.has_term(i) <==> e_in.has_term(i) by {}
        assert(not_in@.terms_are_first(vars@.len() as int));
        let f = pick_simplified(&not_in);
        proof {
            assert forall|i: int| #[trigger] f@.has_term(i) implies 0 <= i < vars@.len() by {
                assert(not_in@.has_term(i));
            }
        }
        Some(f)
    } else {
        None
    };
    let flipped = match &bool_flipped {
        Some(f) => Some(f),
        None => None,
    };
    let r = choose_optimized(term, vars.as_slice(), &bool_orig, flipped);
    proof {
        let orig = sum_products(bool_orig@, vars@);
        let flip = flipped_products(
            match flipped {
                Some(f) => Some(f@),
                None => None,
            },
            vars@,
        );
        assert(orig == orig_products(products));
        assert(flip == flip_products(products, allow_flip));
        if r is Some {
            let o = r->0;
            lemma_sum_products_pins(bool_orig@, vars@);
            if allow_flip {
                lemma_sum_products_pins(bool_flipped->0@, vars@);
            }
            assert forall|x: usize| #[trigger] pin_occurs(o.term.products(), x) implies pin_occurs(
                products,
                x,
            ) by {
                assert(vars@.contains(x));
            }
            assert forall|assignment: spec_fn(int) -> bool|
                #[trigger] sum_holds(o.term.products(), assignment) == (sum_holds(products, assignment)
                    != o.flipped_polarity) by {
                let env = var_env(assignment, vars@);
                lemma_term_expr(products, vars@, assignment);
                if o.flipped_polarity {
                    let f = bool_flipped->0;
                    lemma_sum_products_eval(f@, vars@, assignment);
                    assert(f@.eval(env) == Expr::Not(Box::new(e_in)).eval(env));
                } else {
                    lemma_sum_products_eval(bool_orig@, vars@, assignment);
                    assert(bool_orig@.eval(env) == e_in.eval(env));
                }
            }
            assert forall|q: Seq<Seq<Pin>>|
                uses_pins_of(q, products) && #[trigger] computes(q, products, o.flipped_polarity) implies o.products_after
                <= q.len() by {
                if o.flipped_polarity {
                    lemma_fewest_products(products, vars@, bool_flipped->0@, true, q);
                } else {
                    lemma_fewest_products(products, vars@, bool_orig@, false, q);
                }
            }
        }
    }
    r
}

// ---------------------------------------------------------------------
// Laws of the equations built from terms
// ---------------------------------------------------------------------

/// The OR groups of the first `n` pins of a right-hand side: the first pin
/// and every pin flagged OR open a new group; any other pin is ANDed to
/// the current one.
pub open spec fn or_groups(rhs: Seq<Pin>, is_or: Seq<bool>, n: int) -> Seq<Seq<Pin>>
    decreases n,
{
    if n <= 0 {
        seq![]
    } else {
        let g = or_groups(rhs, is_or, n - 1);
        if n - 1 == 0 || is_or[n - 1] {
            g.push(seq![rhs[n - 1]])
        } else {
            g.update(g.len() - 1, g.last().push(rhs[n - 1]))
        }
    }
}

/// The pins of a product shown joined by ` * `.
pub open spec fn product_text(product: Seq<Pin>, names: Seq<Seq<char>>) -> Seq<char>
    decreases product.len(),
{
    if product.len() == 0 {
        seq![]
    } else if product.len() == 1 {
        pin_text(product[0], names)
    } else {
        product_text(product.drop_last(), names) + seq![' ', '*', ' '] + pin_text(product.last(), names)
    }
}

/// The products shown joined by ` + `.
pub open spec fn sum_text(products: Seq<Seq<Pin>>, names: Seq<Seq<char>>) -> Seq<char>
    decreases products.len(),
{
    if products.len() == 0 {
        seq![]
    } else if products.len() == 1 {
        product_text(products[0], names)
    } else {
        sum_text(products.drop_last(), names) + seq![' ', '+', ' '] + product_text(products.last(), names)
    }
}

proof fn lemma_or_groups_nonempty(rhs: Seq<Pin>, is_or: Seq<bool>, n: int)
    requires
        0 <= n,
    ensures
        n > 0 ==> or_groups(rhs, is_or, n).len() > 0,
        forall|k: int|
            0 <= k < or_groups(rhs, is_or, n).len() ==> (#[trigger] or_groups(rhs, is_or, n)[k]).len() > 0,
    decreases n,
{
    if n > 0 {
        lemma_or_groups_nonempty(rhs, is_or, n - 1);
        let g = or_groups(rhs, is_or, n - 1);
        let g2 = or_groups(rhs, is_or, n);
        if n - 1 == 0 || is_or[n - 1] {
            assert(g2 == g.push(seq![rhs[n - 1]]));
            assert forall|k: int| 0 <= k < g2.len() implies (#[trigger] g2[k]).len() > 0 by {
                if k < g.len() {
                    assert(g2[k] == g[k]);
                }
            }
        } else {
            assert(g2 == g.update(g.len() - 1, g.last().push(rhs[n - 1])));
            assert forall|k: int| 0 <= k < g2.len() implies (#[trigger] g2[k]).len() > 0 by {
                if k < g.len() - 1 {
                    assert(g2[k] == g[k]);
                }
            }
        }
    }
}

/// The rendered right-hand side is the sum of its OR groups.
pub proof fn lemma_rhs_text_groups(rhs: Seq<Pin>, is_or: Seq<bool>, names: Seq<Seq<char>>, n: int)
    requires
        0 <= n <= rhs.len(),
        n <= is_or.len(),
    ensures
        rhs_text(rhs, is_or, names, n) == sum_text(or_groups(rhs, is_or, n), names),
    decreases n,
{
    if n > 0 {
        lemma_rhs_text_groups(rhs, is_or, names, n - 1);
        lemma_or_groups_nonempty(rhs, is_or, n - 1);
        let g = or_groups(rhs, is_or, n - 1);
        let x = rhs[n - 1];
        let g2 = or_groups(rhs, is_or, n);
        if n - 1 == 0 {
            assert(g2 == seq![seq![x]]);
            assert(product_text(seq![x], names) == pin_text(x, names));
            assert(rhs_text(rhs, is_or, names, n) =~= pin_text(x, names));
        } else if is_or[n - 1] {
            assert(g2 == g.push(seq![x]));
            assert(g2.drop_last() =~= g);
            assert(product_text(seq![x], names) == pin_text(x, names));
            assert(sum_text(g2, names) == sum_text(g, names) + seq![' ', '+', ' '] + pin_text(x, names));
            assert(rhs_text(rhs, is_or, names, n) =~= sum_text(g2, names));
        } else {
            let last = g.last();
            assert(g.len() > 0);
            assert(last.len() > 0) by {
                assert(g[g.len() - 1].len() > 0);
            }
            assert(g2 == g.update(g.len() - 1, last.push(x)));
            assert(last.push(x).drop_last() =~= last);
            assert(product_text(last.push(x), names) == product_text(last, names) + seq![' ', '*', ' ']
                + pin_text(x, names));
            if g.len() == 1 {
                assert(sum_text(g2, names) == product_text(g2[0], names));
                assert(sum_text(g, names) == product_text(g[0], names));
            } else {
                assert(g2.drop_last() =~= g.drop_last());
                assert(g2.last() == last.push(x));
            }
            assert(rhs_text(rhs, is_or, names, n) =~= sum_text(g2, names));
        }
    }
}

/// The flag of the first pin is never shown: equations that differ in it
/// alone render the same.
pub proof fn lemma_first_flag_not_rendered(eqn: Equation, eqn2: Equation, names: Seq<Seq<char>>)
    requires
        eqn2.lhs == eqn.lhs,
        eqn2.rhs@ == eqn.rhs@,
        eqn2.is_or@.len() == eqn.is_or@.len(),
        forall|k: int| 1 <= k < eqn.is_or@.len() ==> eqn2.is_or@[k] == eqn.is_or@[k],
    ensures
        equation_text(eqn2, names) == equation_text(eqn, names),
{
    lemma_rhs_text_first_flag(eqn.rhs@, eqn.is_or@, eqn2.is_or@, names, shown_len(eqn));
}

proof fn lemma_rhs_text_first_flag(rhs: Seq<Pin>, is_or: Seq<bool>, is_or2: Seq<bool>, names: Seq<Seq<char>>, n: int)
    requires
        is_or2.len() == is_or.len(),
        forall|k: int| 1 <= k < is_or.len() ==> is_or2[k] == is_or[k],
        n <= is_or.len(),
    ensures
        rhs_text(rhs, is_or2, names, n) == rhs_text(rhs, is_or, names, n),
    decreases n,
{
    if n > 0 {
        lemma_rhs_text_first_flag(rhs, is_or, is_or2, names, n - 1);
    }
}

proof fn lemma_flatten_split<A>(ps: Seq<Seq<A>>, i: int)
    requires
        0 <= i < ps.len(),
    ensures
        ps.flatten() == ps.take(i).flatten() + ps[i] + ps.skip(i + 1).flatten(),
        ps.take(i + 1).flatten() == ps.take(i).flatten() + ps[i],
{
    assert(ps =~= ps.take(i) + (seq![ps[i]] + ps.skip(i + 1)));
    vstd::seq_lib::lemma_flatten_concat(ps.take(i), seq![ps[i]] + ps.skip(i + 1));
    assert((seq![ps[i]] + ps.skip(i + 1)).drop_first() =~= ps.skip(i + 1));
    assert(ps.take(i + 1) =~= ps.take(i).push(ps[i]));
    ps.take(i).lemma_flatten_push(ps[i]);
}

/// Cutting a term's right-hand side at the OR flags, up to `j` pins into
/// product `i`, gives the products before `i` and the first `j` pins of
/// product `i`.
proof fn lemma_or_groups_at(products: Seq<Seq<Pin>>, i: int, j: int)
    requires
        0 <= i <= products.len(),
        i < products.len() ==> 0 <= j <= products[i].len(),
        i == products.len() ==> j == 0,
        forall|k: int| 0 <= k < products.len() ==> (#[trigger] products[k]).len() > 0,
    ensures
        or_groups(products.flatten(), or_marks(products).flatten(), products.take(i).flatten().len() + j) == (
        if j == 0 {
            products.take(i)
        } else {
            products.take(i).push(products[i].take(j))
        }),
    decreases i, j,
{
    let rhs = products.flatten();
    let marks = or_marks(products);
    let is_or = marks.flatten();
    lemma_flatten_lengths(products, marks);
    if j == 0 {
        if i == 0 {
            assert(products.take(0) =~= Seq::<Seq<Pin>>::empty());
        } else {
            lemma_or_groups_at(products, i - 1, products[i - 1].len() as int);
            lemma_flatten_split(products, i - 1);
            assert(products[i - 1].take(products[i - 1].len() as int) =~= products[i - 1]);
            assert(products.take(i) =~= products.take(i - 1).push(products[i - 1]));
        }
    } else {
        lemma_or_groups_at(products, i, j - 1);
        let base = products.take(i).flatten().len() as int;
        let n = base + j;
        lemma_flatten_split(products, i);
        lemma_flatten_split(marks, i);
        assert(marks.take(i) == or_marks(products.take(i))) by {
            assert(marks.take(i) =~= or_marks(products.take(i)));
        }
        lemma_flatten_lengths(products.take(i), marks.take(i));
        assert(rhs[n - 1] == products[i][j - 1]);
        assert(is_or[n - 1] == marks[i][j - 1]);
        assert(marks[i][j - 1] == (i > 0 && j - 1 == 0));
        if j - 1 == 0 {
            if i > 0 {
                assert(products[i - 1].len() > 0);
                lemma_flatten_split(products, i - 1);
                assert(base > 0);
            }
            assert(products[i].take(1) =~= seq![products[i][0]]);
        } else {
            let g = products.take(i).push(products[i].take(j - 1));
            assert(g.last() == products[i].take(j - 1));
            assert(products[i].take(j - 1).push(products[i][j - 1]) =~= products[i].take(j));
            assert(g.update(g.len() - 1, products[i].take(j)) =~= products.take(i).push(products[i].take(j)));
        }
    }
}

/// Cutting the right-hand side of a term's equation at its OR flags gives
/// back the term's products, and the first flag is AND.
pub proof fn lemma_equation_groups(products: Seq<Seq<Pin>>, chip: Chip, rhs: Seq<Pin>, is_or: Seq<bool>)
    requires
        equation_of_term(products, chip, rhs, is_or),
        !spec_is_true(products),
        !spec_is_false(products),
        forall|k: int| 0 <= k < products.len() ==> (#[trigger] products[k]).len() > 0,
    ensures
        or_groups(rhs, is_or, rhs.len() as int) == products,
        is_or[0] == false,
{
    lemma_or_groups_at(products, products.len() as int, 0);
    assert(products.take(products.len() as int) =~= products);
    lemma_flatten_split(products, 0);
    lemma_flatten_split(or_marks(products), 0);
    assert(products.take(0).flatten() =~= Seq::<Pin>::empty());
    assert(or_marks(products).take(0).flatten() =~= Seq::<bool>::empty());
}

/// The equation of a term renders as the term's products: their pins
/// joined by ` * `, the products joined by ` + `.
pub proof fn lemma_equation_renders_products(products: Seq<Seq<Pin>>, chip: Chip, eqn: Equation, names: Seq<Seq<char>>)
    requires
        equation_of_term(products, chip, eqn.rhs@, eqn.is_or@),
        !spec_is_true(products),
        !spec_is_false(products),
        forall|k: int| 0 <= k < products.len() ==> (#[trigger] products[k]).len() > 0,
    ensures
        equation_text(eqn, names) == lhs_text(eqn.lhs, names) + seq![' ', '=', ' '] + sum_text(products, names),
{
    lemma_equation_of_term_lengths(products, chip, eqn.rhs@, eqn.is_or@);
    lemma_equation_groups(products, chip, eqn.rhs@, eqn.is_or@);
    lemma_rhs_text_groups(eqn.rhs@, eqn.is_or@, names, eqn.rhs@.len() as int);
}

// ---------------------------------------------------------------------
// Laws of the conversions and of the two polarities
// ---------------------------------------------------------------------

proof fn lemma_literal_round_trip(pin: Pin, vars: Seq<usize>)
    requires
        strictly_increasing(vars),
        vars.len() <= 256,
        vars.contains(pin.pin),
    ensures
        literal_pin(literal_expr(pin, vars), vars) == pin,
        literal_expr(pin, vars) is Term || literal_expr(pin, vars) is Not,
{
    crate::equivalence::lemma_literal_var(pin, vars);
}

proof fn lemma_product_round_trip(product: Seq<Pin>, vars: Seq<usize>)
    requires
        strictly_increasing(vars),
        vars.len() <= 256,
        product.len() > 0,
        forall|j: int| 0 <= j < product.len() ==> vars.contains(#[trigger] product[j].pin),
    ensures
        product_pins(product_expr(product, vars), vars) == product,
        !(product_expr(product, vars) is Or),
        !(product_expr(product, vars) is True),
        !(product_expr(product, vars) is False),
{
    if product.len() == 1 {
        assert(vars.contains(product[0].pin));
        lemma_literal_round_trip(product[0], vars);
        assert(product_pins(product_expr(product, vars), vars) =~= product);
    } else {
        let lits = product.map_values(|p: Pin| literal_expr(p, vars));
        assert forall|j: int| 0 <= j < product.len() implies literal_pin(#[trigger] lits[j], vars) == product[j] by {
            assert(vars.contains(product[j].pin));
            lemma_literal_round_trip(product[j], vars);
        }
        assert(product_pins(product_expr(product, vars), vars) =~= product);
    }
}

/// The shape that survives the round trip through a boolean expression:
/// `false`, `true`, or a sum whose products are all non-empty.
pub open spec fn round_trip_shape(products: Seq<Seq<Pin>>) -> bool {
    spec_is_false(products) || spec_is_true(products) || forall|k: int|
        0 <= k < products.len() ==> (#[trigger] products[k]).len() > 0
}

proof fn lemma_product_expr_shape(product: Seq<Pin>, vars: Seq<usize>)
    requires
        strictly_increasing(vars),
        vars.len() <= 256,
        product.len() > 0,
        forall|j: int| 0 <= j < product.len() ==> vars.contains(#[trigger] product[j].pin),
    ensures
        product_expr(product, vars).is_product(),
        terms_below(product_expr(product, vars), vars.len() as int),
{
    assert forall|j: int| 0 <= j < product.len() implies (#[trigger] literal_expr(product[j], vars)).is_literal()
        && terms_below(literal_expr(product[j], vars), vars.len() as int) by {
        assert(vars.contains(product[j].pin));
        crate::equivalence::lemma_literal_var(product[j], vars);
        let idx = first_index(vars, product[j].pin);
        assert forall|i: int| #[trigger] literal_expr(product[j], vars).has_term(i) implies 0 <= i < vars.len() by {
            assert(Expr::Term((idx as u8) as int).has_term(i));
        }
    }
    if product.len() > 1 {
        let lits = product.map_values(|p: Pin| literal_expr(p, vars));
        assert forall|i: int| #[trigger] product_expr(product, vars).has_term(i) implies 0 <= i < vars.len() by {
            let k = choose|k: int| 0 <= k < lits.len() && (#[trigger] lits[k]).has_term(i);
            assert(lits[k] == literal_expr(product[k], vars));
        }
    } else {
        assert(literal_expr(product[0], vars).is_literal());
    }
}

/// Turning a term into its boolean expression and that expression back
/// into a term (what `bool_to_term` does after `term_to_bool`) gives the
/// term's products back, when the term is `false`, `true`, or has no empty
/// product and its pins are among `vars`; the expression on the way is a
/// sum of products over the variables of `vars`.
pub proof fn lemma_term_round_trip(products: Seq<Seq<Pin>>, vars: Seq<usize>)
    requires
        strictly_increasing(vars),
        vars_cover(products, vars),
        vars.len() <= 256,
        round_trip_shape(products),
    ensures
        term_expr(products, vars).is_sum_of_products(),
        terms_below(term_expr(products, vars), vars.len() as int),
        sum_products(term_expr(products, vars), vars) == products,
{
    assert forall|k: int, j: int| 0 <= k < products.len() && 0 <= j < products[k].len() implies vars.contains(
        #[trigger] products[k][j].pin,
    ) by {
        assert(pin_occurs(products, products[k][j].pin));
    }
    if spec_is_false(products) {
        assert(sum_products(term_expr(products, vars), vars) =~= products);
    } else if spec_is_true(products) {
        assert(products[0] =~= Seq::<Pin>::empty());
        assert(sum_products(term_expr(products, vars), vars) =~= products);
    } else if products.len() == 1 {
        lemma_product_round_trip(products[0], vars);
        lemma_product_expr_shape(products[0], vars);
        assert(sum_products(term_expr(products, vars), vars) =~= products);
    } else {
        let pes = products.map_values(|q: Seq<Pin>| product_expr(q, vars));
        assert forall|k: int| 0 <= k < products.len() implies product_pins(#[trigger] pes[k], vars) == products[k]
            && pes[k].is_product() && terms_below(pes[k], vars.len() as int) by {
            lemma_product_round_trip(products[k], vars);
            lemma_product_expr_shape(products[k], vars);
        }
        assert forall|i: int| #[trigger] term_expr(products, vars).has_term(i) implies 0 <= i < vars.len() by {
            let k = choose|k: int| 0 <= k < pes.len() && (#[trigger] pes[k]).has_term(i);
            assert(terms_below(pes[k], vars.len() as int));
        }
        assert(sum_products(term_expr(products, vars), vars) =~= products);
    }
}

/// What [`optimize_term`] returns for `term`.
pub open spec fn optimize_result(term: Term, allow_flip: bool, r: Option<Optimized>) -> bool {
    if !optimizable(term.products()) {
        r is None
    } else {
        choice_outcome(r, term, orig_products(term.products()), flip_products(term.products(), allow_flip))
    }
}

/// The two improvements have the same products, line and sizes.
pub open spec fn same_improvement(a: Optimized, b: Optimized) -> bool {
    &&& a.term.products() == b.term.products()
    &&& a.term.line_num == b.term.line_num
    &&& a.flipped_polarity == b.flipped_polarity
    &&& a.products_before == b.products_before
    &&& a.literals_before == b.literals_before
    &&& a.products_after == b.products_after
    &&& a.literals_after == b.literals_after
}

/// How the two polarities relate: allowing the flip never loses an
/// improvement; where the flip is not taken, the result is the same as
/// without it; where it is taken, it is strictly smaller than the best
/// result without it (the input when there is none). The minimized forms
/// are assumed to fit their literal counts in a `usize`.
pub proof fn lemma_polarities(term: Term, r0: Option<Optimized>, r1: Option<Optimized>)
    requires
        optimize_result(term, false, r0),
        optimize_result(term, true, r1),
        optimizable(term.products()) ==> sizes_fit(
            orig_products(term.products()),
            flip_products(term.products(), true),
        ),
    ensures
        r1 is None ==> r0 is None,
        r1 is Some && !r1->0.flipped_polarity ==> r0 is Some && same_improvement(r0->0, r1->0),
        r1 is Some && r1->0.flipped_polarity ==> size_lt(
            (r1->0.products_after as int, r1->0.literals_after as int),
            match r0 {
                Some(o0) => (o0.products_after as int, o0.literals_after as int),
                None => term_size(term.products()),
            },
        ),
{
}

// ---------------------------------------------------------------------
// Laws of the choice, and of how a pin is shown
// ---------------------------------------------------------------------

/// How the choice between the input, its minimized form `orig` and the
/// minimized form `flipped` of its complement goes, sizes compared as
/// (products, literals), products first:
/// - a suggestion is strictly smaller than the input;
/// - a minimized form strictly smaller than the input is never passed over
///   for no suggestion at all;
/// - the form of the same polarity is taken only when it is strictly
///   smaller than the input and the complement is not strictly smaller
///   than it;
/// - the complement is taken only when it is strictly smaller than the
///   input and than the form of the same polarity;
/// - no suggestion means that neither form is strictly smaller than the
///   input.
pub proof fn lemma_choice_by_products_then_literals(
    input: Seq<Seq<Pin>>,
    orig: Seq<Seq<Pin>>,
    flipped: Option<Seq<Seq<Pin>>>,
)
    ensures
        ({
            let orig_smaller = orig.len() < input.len() || (orig.len() == input.len() && literal_count(orig)
                < literal_count(input));
            orig_smaller ==> best_choice(input, orig, flipped) is Some
        }),
        best_choice(input, orig, flipped) matches Some(c) ==> (c.0.len() < input.len() || (c.0.len()
            == input.len() && literal_count(c.0) < literal_count(input))),
        best_choice(input, orig, flipped) matches Some(c) ==> (c.1 ==> flipped == Some(c.0)) && (!c.1 ==> c.0
            == orig),
        best_choice(input, orig, flipped) matches Some(c) ==> (c.1 ==> !(orig.len() < c.0.len() || (orig.len()
            == c.0.len() && literal_count(orig) <= literal_count(c.0)))),
        ({
            let orig_smaller = orig.len() < input.len() || (orig.len() == input.len() && literal_count(orig)
                < literal_count(input));
            best_choice(input, orig, flipped) matches Some(c) ==> (!c.1 ==> orig_smaller && (flipped matches Some(
                f,
            ) ==> !(f.len() < orig.len() || (f.len() == orig.len() && literal_count(f) < literal_count(orig)))))
        }),
        best_choice(input, orig, flipped) is None ==> !(orig.len() < input.len() || (orig.len() == input.len()
            && literal_count(orig) < literal_count(input))) && (flipped matches Some(f) ==> !(f.len()
            < input.len() || (f.len() == input.len() && literal_count(f) < literal_count(input)))),
{
}

/// `optimize_term` suggests something whenever the minimized form of the
/// same polarity is strictly smaller than the input in (products,
/// literals), products first, and every suggestion is strictly smaller than
/// the input in that order.
pub proof fn lemma_optimize_suggests_when_smaller(term: Term, allow_flip: bool, r: Option<Optimized>)
    requires
        optimize_result(term, allow_flip, r),
    ensures
        ({
            let input = term.products();
            let orig = orig_products(input);
            optimizable(input) && sizes_fit(orig, flip_products(input, allow_flip)) && (orig.len() < input.len()
                || (orig.len() == input.len() && literal_count(orig) < literal_count(input))) ==> r is Some
        }),
        r matches Some(o) ==> o.term.products().len() < term.products().len() || (o.term.products().len()
            == term.products().len() && literal_count(o.term.products()) < literal_count(term.products())),
        r matches Some(o) ==> (o.products_after < o.products_before || (o.products_after == o.products_before
            && o.literals_after < o.literals_before)),
{
    lemma_choice_by_products_then_literals(
        term.products(),
        orig_products(term.products()),
        flip_products(term.products(), allow_flip),
    );
}

/// A pin whose name is declared without `/` is shown as its name, with a
/// `/` in front exactly when the pin is negated.
pub proof fn lemma_pin_shown_plain_name(pin: Pin, names: Seq<Seq<char>>)
    requires
        1 <= pin.pin <= names.len(),
        names[pin.pin - 1].len() == 0 || names[pin.pin - 1][0] != '/',
    ensures
        !pin.neg ==> pin_text(pin, names) == names[pin.pin - 1],
        pin.neg ==> pin_text(pin, names) == seq!['/'] + names[pin.pin - 1],
{
}

/// A pin whose name is declared with a leading `/` (active low) is shown
/// as the whole name after the `/` when it is used negated, as declared,
/// and as the whole declared name, slash included, when it is used
/// positive: no character of the name but the slash is dropped.
pub proof fn lemma_pin_shown_declared_negative(pin: Pin, names: Seq<Seq<char>>)
    requires
        1 <= pin.pin <= names.len(),
        names[pin.pin - 1].len() > 0,
        names[pin.pin - 1][0] == '/',
    ensures
        pin.neg ==> pin_text(pin, names).len() + 1 == names[pin.pin - 1].len() && forall|i: int|
            0 <= i < pin_text(pin, names).len() ==> #[trigger] pin_text(pin, names)[i] == names[pin.pin - 1][i + 1],
        !pin.neg ==> pin_text(pin, names) == names[pin.pin - 1],
{
    let raw = names[pin.pin - 1];
    if !pin.neg {
        assert(seq!['/'] + raw.drop_first() =~= raw);
    }
}

/// Inverting a pin toggles exactly its leading `/`: of the two ways of
/// showing a pin, one is the other with a `/` in front.
pub proof fn lemma_pin_shown_inverted(pin: Pin, names: Seq<Seq<char>>)
    requires
        1 <= pin.pin <= names.len(),
    ensures
        ({
            let inverted = Pin { pin: pin.pin, neg: !pin.neg };
            pin_text(inverted, names) == seq!['/'] + pin_text(pin, names) || pin_text(pin, names) == seq!['/']
                + pin_text(inverted, names)
        }),
{
}

} // verus!
