use galette::chips::Chip;
use galette::gal::{Pin, Term};
use galette::interactive::{
    apply_edits, parse_confirmation, parse_reply, suggest, Edit, Ending, Reply, Session,
};
use galette::optimize::format_equation;
use galette::parser::{Equation, Suffix, LHS};

fn p(pin: usize, neg: bool) -> Pin {
    Pin { pin, neg }
}

fn names(list: &[&str]) -> Vec<String> {
    list.iter().map(|s| s.to_string()).collect()
}

#[test]
fn replies_use_first_non_blank_character() {
    assert_eq!(parse_reply(Some("u\n")), Reply::Use);
    assert_eq!(parse_reply(Some("  U")), Reply::Use);
    assert_eq!(parse_reply(Some("\tAccept")), Reply::AcceptAll);
    assert_eq!(parse_reply(Some("a")), Reply::AcceptAll);
    assert_eq!(parse_reply(Some("cancel")), Reply::Cancel);
    assert_eq!(parse_reply(Some("\u{3000}C")), Reply::Cancel);
    assert_eq!(parse_reply(Some("\u{85}\u{2028}u")), Reply::Use);
    assert_eq!(parse_reply(Some("\u{200b}u")), Reply::Keep);
    assert_eq!(parse_reply(Some("k")), Reply::Keep);
    assert_eq!(parse_reply(Some("x u")), Reply::Keep);
    assert_eq!(parse_reply(Some("")), Reply::Keep);
    assert_eq!(parse_reply(Some(" \n")), Reply::Keep);
    assert_eq!(parse_reply(None), Reply::EndOfInput);
}

#[test]
fn confirmation_needs_y() {
    assert!(parse_confirmation("y\n"));
    assert!(parse_confirmation("  Yes"));
    assert!(!parse_confirmation("n"));
    assert!(!parse_confirmation(""));
    assert!(!parse_confirmation("\n"));
    assert!(!parse_confirmation("ny"));
}

#[test]
fn session_without_terminal_takes_everything() {
    let mut s = Session::new(false);
    assert_eq!(s.finish(), Ending::AlreadyOptimal);
    assert!(!s.offer(3, 3, "Y = A".to_string()));
    assert!(!s.offer(5, 6, "Z = B".to_string()));
    assert!(s.had_candidates);
    assert_eq!(s.accepted.len(), 2);
    assert_eq!(s.accepted[1].text, "Z = B");
    assert_eq!(s.finish(), Ending::Write(2));
}

#[test]
fn session_follows_replies() {
    let mut s = Session::new(true);
    assert!(s.offer(1, 1, "a".to_string()));
    assert!(s.accepted.is_empty());
    assert!(!s.answer(1, 1, "a".to_string(), Reply::Keep));
    assert_eq!(s.finish(), Ending::NoneTaken);
    assert!(s.offer(2, 2, "b".to_string()));
    assert!(!s.answer(2, 2, "b".to_string(), Reply::Use));
    assert!(!s.accept_all);
    assert!(s.offer(3, 4, "c".to_string()));
    assert!(!s.answer(3, 4, "c".to_string(), Reply::AcceptAll));
    assert!(s.accept_all);
    assert!(!s.offer(6, 6, "d".to_string()));
    assert_eq!(s.accepted.len(), 3);
    assert_eq!((s.accepted[1].start, s.accepted[1].end), (3, 4));
    assert_eq!(s.finish(), Ending::Write(3));
    let mut s = Session::new(true);
    assert!(s.offer(1, 1, "a".to_string()));
    assert!(s.answer(1, 1, "a".to_string(), Reply::Cancel));
    assert!(s.accepted.is_empty());
    let mut s = Session::new(true);
    assert!(s.offer(1, 1, "a".to_string()));
    assert!(s.answer(1, 1, "a".to_string(), Reply::EndOfInput));
    assert!(s.accepted.is_empty());
}

#[test]
fn session_keeps_edits_in_file_order() {
    let mut s = Session::new(false);
    assert!(!s.offer(9, 9, "c".to_string()));
    assert!(!s.offer(2, 3, "a".to_string()));
    assert!(!s.offer(5, 5, "b".to_string()));
    let starts: Vec<usize> = s.accepted.iter().map(|e| e.start).collect();
    assert_eq!(starts, vec![2, 5, 9]);
    let lines = names(&["1", "2", "3", "4", "5", "6", "7", "8", "9"]);
    let out = apply_edits(lines, &s.accepted);
    assert_eq!(out, names(&["1", "a", "4", "b", "6", "7", "8", "c"]));
}

#[test]
fn confirmation_asked_only_at_a_terminal() {
    let s = Session::new(true);
    assert!(s.asks_confirmation());
    assert!(s.confirms(" yes"));
    assert!(!s.confirms(""));
    assert!(!s.confirms("no"));
    let s = Session::new(false);
    assert!(!s.asks_confirmation());
    assert!(s.confirms(""));
}

#[test]
fn edits_replace_line_ranges() {
    let lines = names(&["GAL16V8", "X", "", "Y = A * B +", "    A * /B", "Z = C", "DESCRIPTION"]);
    let edits = vec![
        Edit { start: 4, end: 5, text: "Y = A".to_string() },
        Edit { start: 6, end: 6, text: "Z = /C".to_string() },
    ];
    let out = apply_edits(lines, &edits);
    assert_eq!(out, names(&["GAL16V8", "X", "", "Y = A", "Z = /C", "DESCRIPTION"]));
    let lines = names(&["a", "b"]);
    assert_eq!(apply_edits(lines.clone(), &Vec::new()), lines);
}

#[test]
fn suggest_renders_both_equations() {
    // Y = A * B + A * /B  →  Y = A
    let pin_names = names(&["Y", "A", "B", "GND", "VCC"]);
    let eqn = Equation {
        line_num: 7,
        end_line: 8,
        lhs: LHS::Pin((p(1, false), Suffix::Plain)),
        rhs: vec![p(2, false), p(3, false), p(2, false), p(3, true)],
        is_or: vec![false, false, true, false],
    };
    let term = Term {
        line_num: 7,
        pins: vec![vec![p(2, false), p(3, false)], vec![p(2, false), p(3, true)]],
    };
    let chip = Chip::GAL16V8;
    let s = suggest(&eqn, &term, chip).expect("reducible");
    assert_eq!(format_equation(&eqn, &pin_names), "Y = A * B + A * /B");
    assert_eq!(format_equation(&s.new_eqn, &pin_names), "Y = A");
    assert_eq!((s.new_eqn.line_num, s.new_eqn.end_line), (7, 8));
    assert!(!s.optimized.flipped_polarity);

    // Already minimal: nothing to suggest.
    let term = Term { line_num: 7, pins: vec![vec![p(2, false)]] };
    assert!(suggest(&eqn, &term, chip).is_none());
}

#[test]
fn suggest_flips_output_pin() {
    let pin_names = names(&["Y", "A", "B", "C", "D", "E"]);
    let pins = vec![
        vec![p(2, false), p(3, false)],
        vec![p(2, false), p(4, false)],
        vec![p(2, false), p(5, false)],
        vec![p(2, false), p(6, false)],
    ];
    let eqn = Equation {
        line_num: 2,
        end_line: 2,
        lhs: LHS::Pin((p(1, false), Suffix::R)),
        rhs: pins.iter().flatten().copied().collect(),
        is_or: vec![false, false, true, false, true, false, true, false],
    };
    let term = Term { line_num: 2, pins };
    let s = suggest(&eqn, &term, Chip::GAL16V8).expect("reducible");
    assert!(s.optimized.flipped_polarity);
    assert_eq!(s.new_eqn.lhs, LHS::Pin((p(1, true), Suffix::R)));
    assert!(format_equation(&s.new_eqn, &pin_names).starts_with("/Y.R = "));

    // AR has no polarity: no flip, and the term is minimal already.
    let eqn = Equation { lhs: LHS::Ar, ..eqn };
    assert!(suggest(&eqn, &term, Chip::GAL16V8).is_none());
}
