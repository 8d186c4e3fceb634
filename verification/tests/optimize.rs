use galette::bool_expr::BoolExpr;
use galette::chips::Chip;
use galette::gal::{self, Pin, Term};
use galette::optimize::{
    bool_to_term, choose_optimized, flip_lhs_polarity, format_equation, optimize_term, term_to_bool,
    term_to_equation, unique_vars,
};
use galette::parser::{Equation, Suffix, LHS};

fn p(pin: usize, neg: bool) -> Pin {
    Pin { pin, neg }
}

fn t(pins: Vec<Vec<(usize, bool)>>) -> Term {
    Term {
        line_num: 0,
        pins: pins
            .into_iter()
            .map(|prod| prod.into_iter().map(|(pin, neg)| p(pin, neg)).collect())
            .collect(),
    }
}

/// Value of a sum of products under the pin levels `levels` (bit `pin`).
fn holds(pins: &[Vec<Pin>], levels: u64) -> bool {
    pins.iter().any(|prod| {
        prod.iter()
            .all(|lit| ((levels >> lit.pin) & 1 == 1) != lit.neg)
    })
}

#[test]
fn absorbs_x_and_x_y() {
    // A + A*B → A
    let term = t(vec![vec![(2, false)], vec![(2, false), (3, false)]]);
    let opt = optimize_term(&term, false).expect("should reduce");
    assert_eq!(opt.products_after, 1);
    assert_eq!(opt.literals_after, 1);
    assert!(!opt.flipped_polarity);
    assert_eq!(opt.term.pins, vec![vec![p(2, false)]]);
}

#[test]
fn merges_complement_pair() {
    // A*B + A*/B → A
    let term = t(vec![
        vec![(2, false), (3, false)],
        vec![(2, false), (3, true)],
    ]);
    let opt = optimize_term(&term, false).expect("should reduce");
    assert_eq!(opt.term.pins, vec![vec![p(2, false)]]);
}

#[test]
fn consensus_drops_redundant_term() {
    // A*B + /A*C + B*C → A*B + /A*C
    let term = t(vec![
        vec![(2, false), (3, false)],
        vec![(2, true), (4, false)],
        vec![(3, false), (4, false)],
    ]);
    let opt = optimize_term(&term, false).expect("should reduce");
    assert_eq!(opt.products_after, 2);
    assert_eq!(opt.literals_after, 4);
}

#[test]
fn already_minimal_returns_none() {
    let term = t(vec![vec![(2, false)], vec![(3, false)]]);
    assert!(optimize_term(&term, false).is_none());
}

#[test]
fn constants_return_none() {
    assert!(optimize_term(&gal::true_term(0), true).is_none());
    assert!(optimize_term(&gal::false_term(0), true).is_none());
}

#[test]
fn polarity_flip_chosen_when_strictly_smaller() {
    // f = A*B + A*C + A*D + A*E (4 products, 8 literals)
    // !f = !A + !B*!C*!D*!E (2 products, 5 literals)
    let term = t(vec![
        vec![(2, false), (3, false)],
        vec![(2, false), (4, false)],
        vec![(2, false), (5, false)],
        vec![(2, false), (6, false)],
    ]);
    let opt = optimize_term(&term, true).expect("should reduce via flip");
    assert!(opt.flipped_polarity);
    assert_eq!(opt.products_after, 2);
}

#[test]
fn format_equation_round_trips_negation_xor() {
    // /B is declared-negative; using it as `B` flips Pin.neg=true.
    let pin_names = vec![
        "Y".to_string(),
        "A".to_string(),
        "/B".to_string(),
        "VCC".to_string(),
    ];
    let eqn = Equation {
        line_num: 1,
        end_line: 1,
        lhs: LHS::Pin((p(1, false), Suffix::Plain)),
        rhs: vec![p(2, false), p(3, true)],
        is_or: vec![false, false],
    };
    assert_eq!(format_equation(&eqn, &pin_names), "Y = A * B");
}

#[test]
fn format_equation_negative_lhs() {
    let pin_names = vec!["Y".to_string(), "A".to_string()];
    let eqn = Equation {
        line_num: 1,
        end_line: 1,
        lhs: LHS::Pin((p(1, true), Suffix::R)),
        rhs: vec![p(2, false)],
        is_or: vec![false],
    };
    assert_eq!(format_equation(&eqn, &pin_names), "/Y.R = A");
}

// ---------------------------------------------------------------------
// Further cases
// ---------------------------------------------------------------------

#[test]
fn optimized_term_keeps_function_or_complement() {
    let cases = vec![
        t(vec![vec![(2, false)], vec![(2, false), (3, false)]]),
        t(vec![vec![(2, false), (3, false)], vec![(2, false), (3, true)]]),
        t(vec![
            vec![(2, false), (3, false)],
            vec![(2, true), (4, false)],
            vec![(3, false), (4, false)],
        ]),
        t(vec![
            vec![(2, false), (3, false)],
            vec![(2, false), (4, false)],
            vec![(2, false), (5, false)],
            vec![(2, false), (6, false)],
        ]),
        t(vec![vec![(7, true), (9, false)], vec![(7, true), (9, true)], vec![(7, false), (9, true)]]),
    ];
    let mut reduced = 0;
    for term in &cases {
        for allow_flip in [false, true] {
            let Some(opt) = optimize_term(term, allow_flip) else {
                continue;
            };
            reduced += 1;
            assert!(allow_flip || !opt.flipped_polarity);
            assert!((opt.products_after, opt.literals_after) < (opt.products_before, opt.literals_before));
            for pin in opt.term.pins.iter().flatten() {
                assert!(term.pins.iter().flatten().any(|q| q.pin == pin.pin));
            }
            for levels in 0u64..1024 {
                assert_eq!(
                    holds(&opt.term.pins, levels),
                    holds(&term.pins, levels) != opt.flipped_polarity
                );
            }
        }
    }
    assert_eq!(reduced, 9);
}

#[test]
fn optimize_counts_sizes_before() {
    let term = t(vec![vec![(2, false)], vec![(2, false), (3, false)]]);
    let opt = optimize_term(&term, true).unwrap();
    assert_eq!(opt.products_before, 2);
    assert_eq!(opt.literals_before, 3);
    assert_eq!(opt.term.line_num, 0);
}

#[test]
fn empty_products_only_return_none() {
    // Two empty products: not the constant `true` form, but no pin either.
    let term = t(vec![vec![], vec![]]);
    assert!(optimize_term(&term, true).is_none());
}

#[test]
fn tautology_becomes_true() {
    // A + /A → true: one empty product.
    let term = t(vec![vec![(2, false)], vec![(2, true)]]);
    let opt = optimize_term(&term, false).expect("should reduce");
    assert_eq!(opt.term.pins, vec![Vec::<Pin>::new()]);
    assert_eq!((opt.products_after, opt.literals_after), (1, 0));
}

#[test]
fn contradiction_becomes_false() {
    // A * /A → false: no product.
    let term = t(vec![vec![(2, false), (2, true)]]);
    let opt = optimize_term(&term, false).expect("should reduce");
    assert!(opt.term.pins.is_empty());
}

#[test]
fn input_wins_ties() {
    // /A alone cannot get smaller in either polarity.
    let term = t(vec![vec![(5, true)]]);
    assert!(optimize_term(&term, true).is_none());
}

#[test]
fn choose_optimized_prefers_smaller_form() {
    // input: A*B + A*/B (2 products, 4 literals) over vars [2, 3]
    let term = t(vec![vec![(2, false), (3, false)], vec![(2, false), (3, true)]]);
    let vars = vec![2usize, 3];
    let orig = BoolExpr::Term(0);
    let opt = choose_optimized(&term, &vars, &orig, None).unwrap();
    assert_eq!(opt.term.pins, vec![vec![p(2, false)]]);
    assert!(!opt.flipped_polarity);
    assert_eq!((opt.products_before, opt.literals_before), (2, 4));
    assert_eq!((opt.products_after, opt.literals_after), (1, 1));

    // A flipped form of equal size loses to the same polarity.
    let flipped = BoolExpr::Not(Box::new(BoolExpr::Term(1)));
    let opt = choose_optimized(&term, &vars, &orig, Some(&flipped)).unwrap();
    assert!(!opt.flipped_polarity);

    // A strictly smaller flipped form wins.
    let big = BoolExpr::Or(vec![
        BoolExpr::And(vec![BoolExpr::Term(0), BoolExpr::Term(1)]),
        BoolExpr::Not(Box::new(BoolExpr::Term(1))),
    ]);
    let opt = choose_optimized(&term, &vars, &big, Some(&flipped)).unwrap();
    assert!(opt.flipped_polarity);
    assert_eq!(opt.term.pins, vec![vec![p(3, true)]]);

    // A form as large as the input is no improvement.
    let same = BoolExpr::Or(vec![
        BoolExpr::And(vec![BoolExpr::Term(0), BoolExpr::Term(1)]),
        BoolExpr::And(vec![BoolExpr::Term(0), BoolExpr::Not(Box::new(BoolExpr::Term(1)))]),
    ]);
    assert!(choose_optimized(&term, &vars, &same, None).is_none());

    // Constants map to the true and false terms.
    let opt = choose_optimized(&term, &vars, &BoolExpr::False, None).unwrap();
    assert!(opt.term.pins.is_empty());
    let opt = choose_optimized(&term, &vars, &BoolExpr::True, None).unwrap();
    assert_eq!(opt.term.pins, vec![Vec::<Pin>::new()]);
}

#[test]
fn term_to_equation_lays_out_or_groups() {
    let term = t(vec![vec![(2, false), (3, true)], vec![], vec![(4, false)]]);
    let eqn = term_to_equation(&term, LHS::Ar, Chip::GAL22V10, 5, 7);
    assert_eq!(eqn.rhs, vec![p(2, false), p(3, true), p(4, false)]);
    assert_eq!(eqn.is_or, vec![false, false, true]);
    assert_eq!((eqn.line_num, eqn.end_line), (5, 7));
    assert_eq!(eqn.lhs, LHS::Ar);

    // An empty first product still makes the next product open an OR group.
    let term = t(vec![vec![], vec![(4, false), (5, false)]]);
    let eqn = term_to_equation(&term, LHS::Sp, Chip::GAL16V8, 1, 1);
    assert_eq!(eqn.is_or, vec![true, false]);
}

#[test]
fn term_to_equation_constants_use_vcc_and_gnd() {
    let lhs = LHS::Pin((p(12, false), Suffix::Plain));
    let eqn = term_to_equation(&gal::true_term(3), lhs, Chip::GAL16V8, 3, 3);
    assert_eq!(eqn.rhs, vec![p(20, false)]);
    assert_eq!(eqn.is_or, vec![false]);
    let eqn = term_to_equation(&gal::false_term(3), lhs, Chip::GAL16V8, 3, 3);
    assert_eq!(eqn.rhs, vec![p(10, false)]);
    let eqn = term_to_equation(&gal::true_term(3), lhs, Chip::GAL20V8, 3, 3);
    assert_eq!(eqn.rhs, vec![p(24, false)]);
    let eqn = term_to_equation(&gal::false_term(3), lhs, Chip::GAL22V10, 3, 3);
    assert_eq!(eqn.rhs, vec![p(12, false)]);
}

#[test]
fn flip_lhs_polarity_inverts_pin() {
    let lhs = LHS::Pin((p(14, false), Suffix::T));
    assert_eq!(flip_lhs_polarity(&lhs), LHS::Pin((p(14, true), Suffix::T)));
    assert_eq!(flip_lhs_polarity(&flip_lhs_polarity(&lhs)), lhs);
}

#[test]
fn format_equation_or_groups_and_suffixes() {
    let pin_names = vec![
        "/Q".to_string(),
        "A".to_string(),
        "B".to_string(),
        "/C".to_string(),
    ];
    let eqn = Equation {
        line_num: 1,
        end_line: 2,
        lhs: LHS::Pin((p(1, true), Suffix::ARST)),
        rhs: vec![p(2, false), p(3, true), p(4, false)],
        is_or: vec![false, false, true],
    };
    assert_eq!(format_equation(&eqn, &pin_names), "Q.ARST = A * /B + /C");

    let eqn = Equation {
        line_num: 1,
        end_line: 1,
        lhs: LHS::Sp,
        rhs: vec![],
        is_or: vec![],
    };
    assert_eq!(format_equation(&eqn, &pin_names), "SP = ");

    // Only pins that have an OR/AND flag are shown.
    let eqn = Equation {
        line_num: 1,
        end_line: 1,
        lhs: LHS::Ar,
        rhs: vec![p(2, false), p(3, false)],
        is_or: vec![false],
    };
    assert_eq!(format_equation(&eqn, &pin_names), "AR = A");

    for (suffix, text) in [
        (Suffix::Plain, "Q = A"),
        (Suffix::T, "Q.T = A"),
        (Suffix::E, "Q.E = A"),
        (Suffix::CLK, "Q.CLK = A"),
        (Suffix::APRST, "Q.APRST = A"),
    ] {
        let eqn = Equation {
            line_num: 1,
            end_line: 1,
            lhs: LHS::Pin((p(1, true), suffix)),
            rhs: vec![p(2, false)],
            is_or: vec![false],
        };
        assert_eq!(format_equation(&eqn, &pin_names), text);
    }
}

// ---------------------------------------------------------------------
// Laws on concrete values
// ---------------------------------------------------------------------

fn names(list: &[&str]) -> Vec<String> {
    list.iter().map(|s| s.to_string()).collect()
}

/// The right-hand side cut before every pin flagged OR.
fn or_groups(rhs: &[Pin], is_or: &[bool]) -> Vec<Vec<Pin>> {
    let mut groups: Vec<Vec<Pin>> = Vec::new();
    for (k, (pin, or)) in rhs.iter().zip(is_or.iter()).enumerate() {
        if k == 0 || *or {
            groups.push(vec![*pin]);
        } else {
            groups.last_mut().unwrap().push(*pin);
        }
    }
    groups
}

#[test]
fn equation_or_groups_are_the_products() {
    for pins in [
        vec![vec![(2, false), (3, true)], vec![(4, false)]],
        vec![vec![(5, true)]],
        vec![vec![(2, false)], vec![(3, false), (4, true), (5, false)], vec![(6, true)]],
    ] {
        let term = t(pins);
        let eqn = term_to_equation(&term, LHS::Ar, Chip::GAL22V10, 1, 1);
        assert!(!eqn.is_or[0]);
        assert_eq!(or_groups(&eqn.rhs, &eqn.is_or), term.pins);
    }
}

#[test]
fn first_flag_is_not_shown() {
    let pin_names = names(&["Y", "A", "B", "C"]);
    let mut eqn = Equation {
        line_num: 1,
        end_line: 1,
        lhs: LHS::Pin((p(1, false), Suffix::Plain)),
        rhs: vec![p(2, false), p(3, true), p(4, false)],
        is_or: vec![false, false, true],
    };
    let shown = format_equation(&eqn, &pin_names);
    eqn.is_or[0] = true;
    assert_eq!(format_equation(&eqn, &pin_names), shown);
    assert_eq!(shown, "Y = A * /B + C");
}

#[test]
fn term_equation_renders_joined_products() {
    let pin_names = names(&["Q", "A", "/B", "C", "D"]);
    let term = t(vec![vec![(2, false), (3, false)], vec![(4, true)], vec![(5, false), (2, true)]]);
    let eqn = term_to_equation(&term, LHS::Ar, Chip::GAL22V10, 1, 1);
    assert_eq!(format_equation(&eqn, &pin_names), "AR = A * /B + /C + D * /A");
}

#[test]
fn minimal_term_survives_the_round_trip() {
    // A*B + /A*C is its own minimal form: converting it to a boolean
    // expression and back loses nothing, so nothing is suggested.
    let term = t(vec![vec![(2, false), (3, false)], vec![(2, true), (4, false)]]);
    assert!(optimize_term(&term, false).is_none());
}

#[test]
fn polarities_relate() {
    let terms = vec![
        t(vec![
            vec![(2, false), (3, false)],
            vec![(2, false), (4, false)],
            vec![(2, false), (5, false)],
            vec![(2, false), (6, false)],
        ]),
        t(vec![vec![(2, false)], vec![(2, false), (3, false)]]),
        t(vec![vec![(2, false), (3, false)], vec![(2, false), (3, true)]]),
        t(vec![vec![(2, false)]]),
        t(vec![vec![(2, false), (3, false)], vec![(2, true), (4, false)]]),
    ];
    for term in &terms {
        let r0 = optimize_term(term, false);
        let r1 = optimize_term(term, true);
        match &r1 {
            None => assert!(r0.is_none()),
            Some(o1) if !o1.flipped_polarity => {
                let o0 = r0.as_ref().expect("same improvement without the flip");
                assert_eq!(o0.term.pins, o1.term.pins);
                assert_eq!(
                    (o0.products_after, o0.literals_after),
                    (o1.products_after, o1.literals_after)
                );
            }
            Some(o1) => {
                let before = match &r0 {
                    Some(o0) => (o0.products_after, o0.literals_after),
                    None => (o1.products_before, o1.literals_before),
                };
                assert!((o1.products_after, o1.literals_after) < before);
            }
        }
    }
}

#[test]
fn term_to_bool_then_bool_to_term_gives_the_term_back() {
    let mut terms = vec![
        t(vec![vec![(2, false), (3, true)], vec![(7, false)], vec![(3, false), (2, true), (5, false)]]),
        t(vec![vec![(4, true)]]),
        gal::true_term(0),
        gal::false_term(0),
    ];
    terms[0].line_num = 9;
    for term in &terms {
        let vars = unique_vars(term);
        let b = term_to_bool(term, &vars);
        let back = bool_to_term(&b, &vars, term.line_num);
        assert_eq!(back.pins, term.pins);
        assert_eq!(back.line_num, term.line_num);
    }
    assert_eq!(unique_vars(&terms[0]), vec![2, 3, 5, 7]);
}

#[test]
fn cyclic_cover_gets_fewest_products() {
    // Minterms 0, 1, 2, 5, 6, 7 of (C, B, A): every prime implicant has two
    // literals and no three-product cover exists with fewer products.
    let minterm = |m: usize| -> Vec<(usize, bool)> {
        (0..3).map(|bit| (2 + bit, (m >> bit) & 1 == 0)).collect()
    };
    let term = t([0, 1, 2, 5, 6, 7].iter().map(|&m| minterm(m)).collect());
    let opt = optimize_term(&term, false).expect("should reduce");
    assert_eq!(opt.products_after, 3);
    assert_eq!(opt.literals_after, 6);
    for levels in 0u64..64 {
        assert_eq!(holds(&opt.term.pins, levels), holds(&term.pins, levels));
    }
}
