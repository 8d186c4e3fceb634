//! The decisions of an interactive optimization pass over a source file:
//! what to suggest for each equation, how to read the user's replies,
//! which rewrites are kept, and how they are spliced into the file's lines.
//! Reading, printing and writing the file are left to the caller.
use vstd::prelude::*;

use crate::chips::Chip;
use crate::errors::LineNum;
use crate::gal::{literal_count, pin_set, Pin, Term};
use crate::optimize::{
    equation_of_term, flip_lhs_polarity, flipped_lhs, optimize_result, optimize_term, term_to_equation,
    Optimized,
};
use crate::parser::{Equation, LHS};

verus! {

// ---------------------------------------------------------------------
// Replies typed by the user
// ---------------------------------------------------------------------

/// The characters with the Unicode `White_Space` property.
pub open spec fn spec_is_whitespace(c: char) -> bool {
    let u = c as u32;
    ||| 0x9 <= u <= 0xd
    ||| u == 0x20
    ||| u == 0x85
    ||| u == 0xa0
    ||| u == 0x1680
    ||| 0x2000 <= u <= 0x200a
    ||| u == 0x2028
    ||| u == 0x2029
    ||| u == 0x202f
    ||| u == 0x205f
    ||| u == 0x3000
}

/// Whether `c` has the Unicode `White_Space` property, as
/// `char::is_whitespace` (and so `str::trim`) decides it.
fn is_whitespace(c: char) -> (r: bool)
    ensures
        r == spec_is_whitespace(c),
{
    let u = c as u32;
    (0x9 <= u && u <= 0xd) || u == 0x20 || u == 0x85 || u == 0xa0 || u == 0x1680 || (0x2000 <= u && u
        <= 0x200a) || u == 0x2028 || u == 0x2029 || u == 0x202f || u == 0x205f || u == 0x3000
}

/// The first character of `s` that is not whitespace: the first character
/// of `s.trim()`.
pub open spec fn first_non_whitespace(s: Seq<char>) -> Option<char>
    decreases s.len(),
{
    if s.len() == 0 {
        None
    } else if spec_is_whitespace(s[0]) {
        first_non_whitespace(s.drop_first())
    } else {
        Some(s[0])
    }
}

proof fn lemma_first_non_whitespace_skip(s: Seq<char>, i: int)
    requires
        0 <= i < s.len(),
        spec_is_whitespace(s[i]),
    ensures
        first_non_whitespace(s.skip(i)) == first_non_whitespace(s.skip(i + 1)),
{
    assert(s.skip(i).drop_first() =~= s.skip(i + 1));
}

fn first_char_trimmed(line: &str) -> (c: Option<char>)
    ensures
        c == first_non_whitespace(line@),
{
    let n = line.unicode_len();
    let mut i: usize = 0;
    assert(line@.skip(0) =~= line@);
    while i < n
        invariant
            n == line@.len(),
            i <= n,
            first_non_whitespace(line@.skip(i as int)) == first_non_whitespace(line@),
        decreases n - i,
    {
        let c = line.get_char(i);
        if !is_whitespace(c) {
            assert(line@.skip(i as int)[0] == c);
            return Some(c);
        }
        proof {
            lemma_first_non_whitespace_skip(line@, i as int);
        }
        i = i + 1;
    }
    assert(line@.skip(n as int).len() == 0);
    None
}

/// What the user answers to a suggestion.
#[derive(Clone, Copy, Debug, PartialEq, Eq, Structural)]
pub enum Reply {
    /// `u`: use the optimized equation.
    Use,
    /// `a`: use it, and every later suggestion without asking.
    AcceptAll,
    /// Anything else: keep the equation as it is.
    Keep,
    /// `c`: stop, writing nothing.
    Cancel,
    /// The input ended before a reply: stop, writing nothing.
    EndOfInput,
}

/// The reply that a line stands for: its first non-blank character, in
/// either case.
pub open spec fn reply_of(first: Option<char>) -> Reply {
    match first {
        Some(c) => if c == 'c' || c == 'C' {
            Reply::Cancel
        } else if c == 'a' || c == 'A' {
            Reply::AcceptAll
        } else if c == 'u' || c == 'U' {
            Reply::Use
        } else {
            Reply::Keep
        },
        None => Reply::Keep,
    }
}

/// Reads the user's reply to a suggestion: the line read, or `None` when
/// the input has ended.
pub fn parse_reply(line: Option<&str>) -> (r: Reply)
    ensures
        line is None ==> r == Reply::EndOfInput,
        line matches Some(l) ==> r == reply_of(first_non_whitespace(l@)),
{
    let line = match line {
        Some(l) => l,
        None => return Reply::EndOfInput,
    };
    match first_char_trimmed(line) {
        Some(c) => if c == 'c' || c == 'C' {
            Reply::Cancel
        } else if c == 'a' || c == 'A' {
            Reply::AcceptAll
        } else if c == 'u' || c == 'U' {
            Reply::Use
        } else {
            Reply::Keep
        },
        None => Reply::Keep,
    }
}

/// Reads the answer to "write the changes?": yes when its first non-blank
/// character is `y` or `Y`.
pub fn parse_confirmation(line: &str) -> (yes: bool)
    ensures
        yes == (first_non_whitespace(line@) == Some('y') || first_non_whitespace(line@) == Some('Y')),
{
    match first_char_trimmed(line) {
        Some(c) => c == 'y' || c == 'Y',
        None => false,
    }
}

// ---------------------------------------------------------------------
// Suggestions
// ---------------------------------------------------------------------

/// An optimized equation offered in place of one of the source file.
pub struct Suggestion {
    pub optimized: Optimized,
    /// The equation to write in place of the old one.
    pub new_eqn: Equation,
}

/// The left-hand side of the rewritten equation.
pub open spec fn new_lhs(lhs: LHS, flipped: bool) -> LHS {
    if flipped {
        flipped_lhs(lhs)
    } else {
        lhs
    }
}

/// The suggestion for the equation `eqn`, whose sum of products is `term`:
/// the optimized term as an equation, on the lines of `eqn`, with the
/// output inverted where the complement was chosen (which only a pin output
/// allows). `None` when the term cannot be improved.
pub fn suggest(eqn: &Equation, term: &Term, chip: Chip) -> (r: Option<Suggestion>)
    requires
        literal_count(term.products()) <= usize::MAX,
        pin_set(term.products()).len() <= 31,
    ensures
        optimize_result(
            *term,
            eqn.lhs is Pin,
            match r {
                Some(s) => Some(s.optimized),
                None => None,
            },
        ),
        r matches Some(s) ==> {
            &&& s.new_eqn.line_num == eqn.line_num
            &&& s.new_eqn.end_line == eqn.end_line
            &&& s.new_eqn.lhs == new_lhs(eqn.lhs, s.optimized.flipped_polarity)
            &&& equation_of_term(s.optimized.term.products(), chip, s.new_eqn.rhs@, s.new_eqn.is_or@)
        },
{
    let allow_flip = match &eqn.lhs {
        LHS::Pin(_) => true,
        _ => false,
    };
    let opt = match optimize_term(term, allow_flip) {
        Some(opt) => opt,
        None => return None,
    };
    let lhs = if opt.flipped_polarity {
        flip_lhs_polarity(&eqn.lhs)
    } else {
        eqn.lhs
    };
    let new_eqn = term_to_equation(&opt.term, lhs, chip, eqn.line_num, eqn.end_line);
    Some(Suggestion { optimized: opt, new_eqn })
}

// ---------------------------------------------------------------------
// The session: which rewrites are kept
// ---------------------------------------------------------------------

/// A rewrite of the source file: lines `start..=end` (1-based) become the
/// single line `text`.
pub struct Edit {
    pub start: LineNum,
    pub end: LineNum,
    pub text: String,
}

/// The edits are in file order: none starts before the one ahead of it.
pub open spec fn in_file_order(edits: Seq<Edit>) -> bool {
    forall|i: int, j: int| 0 <= i <= j < edits.len() ==> (#[trigger] edits[i]).start <= (#[trigger] edits[j]).start
}

/// `edits` with `e` placed after every edit that starts no later than it.
pub open spec fn insert_in_order(edits: Seq<Edit>, e: Edit) -> Seq<Edit>
    decreases edits.len(),
{
    if edits.len() == 0 {
        seq![e]
    } else if edits.last().start <= e.start {
        edits.push(e)
    } else {
        insert_in_order(edits.drop_last(), e).push(edits.last())
    }
}

proof fn lemma_insert_in_order_split(s: Seq<Edit>, e: Edit, p: int)
    requires
        0 <= p <= s.len(),
        forall|k: int| p <= k < s.len() ==> (#[trigger] s[k]).start > e.start,
    ensures
        insert_in_order(s, e) == insert_in_order(s.take(p), e) + s.skip(p),
    decreases s.len() - p,
{
    if p < s.len() {
        assert(s.last() == s[s.len() - 1]);
        lemma_insert_in_order_split(s.drop_last(), e, p);
        assert(s.drop_last().take(p) =~= s.take(p));
        assert(s.drop_last().skip(p).push(s.last()) =~= s.skip(p));
        assert(insert_in_order(s, e) =~= insert_in_order(s.take(p), e) + s.skip(p));
    } else {
        assert(s.take(p) =~= s);
        assert(s.skip(p) =~= Seq::<Edit>::empty());
        assert(insert_in_order(s, e) =~= insert_in_order(s.take(p), e) + s.skip(p));
    }
}

/// Places `e` among `edits` so that they stay in file order.
fn insert_edit(edits: &mut Vec<Edit>, e: Edit)
    requires
        in_file_order(old(edits)@),
    ensures
        final(edits)@ == insert_in_order(old(edits)@, e),
        in_file_order(final(edits)@),
{
    let mut p = edits.len();
    while p > 0 && edits[p - 1].start > e.start
        invariant
            p <= edits@.len(),
            edits@ == old(edits)@,
            forall|k: int| p <= k < edits@.len() ==> (#[trigger] edits@[k]).start > e.start,
        decreases p,
    {
        p = p - 1;
    }
    let ghost s = edits@;
    proof {
        lemma_insert_in_order_split(s, e, p as int);
        if p > 0 {
            assert(s.take(p as int).last() == s[p - 1]);
            assert(s.take(p as int).drop_last() =~= s.take(p - 1));
        } else {
            assert(s.take(0) =~= Seq::<Edit>::empty());
        }
    }
    edits.insert(p, e);
    proof {
        assert(edits@ =~= s.take(p as int) + seq![e] + s.skip(p as int));
        assert(edits@ =~= insert_in_order(s, e));
        assert forall|i: int, j: int| 0 <= i <= j < edits@.len() implies (#[trigger] edits@[i]).start
            <= (#[trigger] edits@[j]).start by {
            if i < p && j > p {
                assert(s[i].start <= s[j - 1].start);
            } else if i < p && j == p {
                assert(s[i].start <= s[p - 1].start);
            } else if i > p {
                assert(s[i - 1].start <= s[j - 1].start);
            } else if i == p && j > p {
                assert(s[j - 1].start > e.start);
            } else {
                assert(s[i].start <= s[j].start);
            }
        }
    }
}

/// The state of an interactive pass.
pub struct Session {
    /// The user is at a terminal and can be asked.
    pub interactive: bool,
    /// Every later suggestion is taken without asking.
    pub accept_all: bool,
    /// Some equation could be improved.
    pub had_candidates: bool,
    /// The rewrites taken so far, in file order.
    pub accepted: Vec<Edit>,
}

/// How a pass that was not cancelled ends.
#[derive(Clone, Copy, Debug, PartialEq, Eq, Structural)]
pub enum Ending {
    /// No equation could be improved.
    AlreadyOptimal,
    /// Suggestions were made but none was taken.
    NoneTaken,
    /// This many rewrites are to be confirmed and written.
    Write(usize),
}

impl Session {
    /// A new pass. Without a terminal to ask, every suggestion is taken.
    pub fn new(interactive: bool) -> (s: Session)
        ensures
            s.interactive == interactive,
            s.accept_all == !interactive,
            !s.had_candidates,
            s.accepted@.len() == 0,
    {
        Session { interactive, accept_all: !interactive, had_candidates: false, accepted: Vec::new() }
    }

    /// A suggestion to rewrite lines `start..=end` as `text`. When every
    /// suggestion is taken it is recorded at once and `false` is returned;
    /// otherwise nothing is recorded and `true` says that the user is to be
    /// asked.
    pub fn offer(&mut self, start: LineNum, end: LineNum, text: String) -> (ask: bool)
        requires
            in_file_order(old(self).accepted@),
        ensures
            final(self).had_candidates,
            final(self).interactive == old(self).interactive,
            final(self).accept_all == old(self).accept_all,
            in_file_order(final(self).accepted@),
            ask == !old(self).accept_all,
            old(self).accept_all ==> final(self).accepted@ == insert_in_order(
                old(self).accepted@,
                Edit { start, end, text },
            ),
            !old(self).accept_all ==> final(self).accepted@ == old(self).accepted@,
    {
        self.had_candidates = true;
        if self.accept_all {
            insert_edit(&mut self.accepted, Edit { start, end, text });
            false
        } else {
            true
        }
    }

    /// The user's reply to the suggestion to rewrite lines `start..=end` as
    /// `text`. Returns `true` when the pass is cancelled, by the user or by
    /// the end of the input.
    pub fn answer(&mut self, start: LineNum, end: LineNum, text: String, reply: Reply) -> (cancelled: bool)
        requires
            in_file_order(old(self).accepted@),
        ensures
            cancelled == (reply == Reply::Cancel || reply == Reply::EndOfInput),
            final(self).had_candidates == old(self).had_candidates,
            final(self).interactive == old(self).interactive,
            final(self).accept_all == (old(self).accept_all || reply == Reply::AcceptAll),
            in_file_order(final(self).accepted@),
            (reply == Reply::Use || reply == Reply::AcceptAll) ==> final(self).accepted@ == insert_in_order(
                old(self).accepted@,
                Edit { start, end, text },
            ),
            !(reply == Reply::Use || reply == Reply::AcceptAll) ==> final(self).accepted@ == old(
                self,
            ).accepted@,
    {
        match reply {
            Reply::Cancel => true,
            Reply::EndOfInput => true,
            Reply::AcceptAll => {
                self.accept_all = true;
                insert_edit(&mut self.accepted, Edit { start, end, text });
                false
            },
            Reply::Use => {
                insert_edit(&mut self.accepted, Edit { start, end, text });
                false
            },
            Reply::Keep => false,
        }
    }

    /// How the pass ends once every equation was offered.
    pub fn finish(&self) -> (e: Ending)
        ensures
            self.accepted@.len() > 0 ==> e == Ending::Write(self.accepted@.len() as usize),
            self.accepted@.len() == 0 && self.had_candidates ==> e == Ending::NoneTaken,
            self.accepted@.len() == 0 && !self.had_candidates ==> e == Ending::AlreadyOptimal,
    {
        if self.accepted.len() == 0 {
            if self.had_candidates {
                Ending::NoneTaken
            } else {
                Ending::AlreadyOptimal
            }
        } else {
            Ending::Write(self.accepted.len())
        }
    }

    /// Whether the user is asked before the rewrites are written: only at a
    /// terminal.
    pub fn asks_confirmation(&self) -> (ask: bool)
        ensures
            ask == self.interactive,
    {
        self.interactive
    }

    /// Whether the rewrites are written, given the answer to the question
    /// (which counts only where it was asked).
    pub fn confirms(&self, answer: &str) -> (write: bool)
        ensures
            write == (!self.interactive || first_non_whitespace(answer@) == Some('y') || first_non_whitespace(
                answer@,
            ) == Some('Y')),
    {
        if self.interactive {
            parse_confirmation(answer)
        } else {
            true
        }
    }
}

// ---------------------------------------------------------------------
// Writing the rewrites into the file's lines
// ---------------------------------------------------------------------

/// The edits are in file order, do not overlap, and each names lines that
/// exist (1-based, `start <= end`).
pub open spec fn edits_fit(edits: Seq<Edit>, n_lines: int) -> bool {
    &&& forall|k: int| 0 <= k < edits.len() ==> 1 <= (#[trigger] edits[k]).start <= edits[k].end <= n_lines
    &&& forall|k: int| 0 <= k < edits.len() - 1 ==> (#[trigger] edits[k]).end < edits[k + 1].start
}

/// The lines with lines `start..=end` of one edit replaced by its text.
pub open spec fn splice(lines: Seq<String>, edit: Edit) -> Seq<String> {
    lines.take(edit.start - 1) + seq![edit.text] + lines.skip(edit.end as int)
}

/// The lines with every edit applied, the last one first so that the line
/// numbers of the earlier ones still hold.
pub open spec fn spliced(lines: Seq<String>, edits: Seq<Edit>) -> Seq<String>
    decreases edits.len(),
{
    if edits.len() == 0 {
        lines
    } else {
        spliced(splice(lines, edits.last()), edits.drop_last())
    }
}

proof fn lemma_edit_ends_increase(edits: Seq<Edit>, n_lines: int, j: int, m: int)
    requires
        edits_fit(edits, n_lines),
        0 <= j <= m < edits.len(),
    ensures
        edits[j].end <= edits[m].end,
    decreases m - j,
{
    if j < m {
        lemma_edit_ends_increase(edits, n_lines, j + 1, m);
        assert(edits[j].end < edits[j + 1].start);
    }
}

fn splice_lines(lines: &mut Vec<String>, edit: &Edit)
    requires
        1 <= edit.start <= edit.end <= old(lines)@.len(),
    ensures
        final(lines)@ == splice(old(lines)@, *edit),
{
    let mut tail = lines.split_off(edit.end);
    lines.truncate(edit.start - 1);
    lines.push(edit.text.clone());
    lines.append(&mut tail);
    assert(lines@ =~= splice(old(lines)@, *edit));
}

/// Applies the accepted rewrites to the lines of the source file.
pub fn apply_edits(lines: Vec<String>, edits: &Vec<Edit>) -> (out: Vec<String>)
    requires
        edits_fit(edits@, lines@.len() as int),
    ensures
        out@ == spliced(lines@, edits@),
{
    let mut cur = lines;
    let mut k = edits.len();
    assert(edits@.take(k as int) =~= edits@);
    while k > 0
        invariant
            k <= edits@.len(),
            edits_fit(edits@, lines@.len() as int),
            forall|j: int| 0 <= j < k ==> (#[trigger] edits@[j]).end <= cur@.len(),
            spliced(cur@, edits@.take(k as int)) == spliced(lines@, edits@),
        decreases k,
    {
        let ghost before = cur@;
        let edit = &edits[k - 1];
        proof {
            assert(edits@.take(k as int).last() == edits@[k - 1]);
            assert(edits@.take(k as int).drop_last() =~= edits@.take(k - 1));
        }
        splice_lines(&mut cur, edit);
        assert forall|j: int| 0 <= j < k - 1 implies (#[trigger] edits@[j]).end <= cur@.len() by {
            lemma_edit_ends_increase(edits@, lines@.len() as int, j, k - 2);
            assert(edits@[k - 2].end < edits@[k - 1].start);
        }
        k = k - 1;
    }
    cur
}

// ---------------------------------------------------------------------
// Laws of the replies, the rewritten output and the splicing
// ---------------------------------------------------------------------

/// Replies go by their first non-blank character, in either case: only
/// `u`/`U` uses the suggestion, only `a`/`A` accepts all, only `c`/`C`
/// cancels, and anything else (a blank line too) keeps the equation.
pub proof fn lemma_reply_letters(c: char)
    ensures
        (reply_of(Some(c)) == Reply::Use) <==> (c == 'u' || c == 'U'),
        (reply_of(Some(c)) == Reply::AcceptAll) <==> (c == 'a' || c == 'A'),
        (reply_of(Some(c)) == Reply::Cancel) <==> (c == 'c' || c == 'C'),
        (reply_of(Some(c)) == Reply::Keep) <==> !(c == 'u' || c == 'U' || c == 'a' || c == 'A' || c == 'c'
            || c == 'C'),
        reply_of(Some(c)) != Reply::EndOfInput,
        reply_of(None) == Reply::Keep,
{
}

/// An upper-case letter gives the same reply as its lower-case form.
pub proof fn lemma_reply_ignores_case(c: char)
    requires
        'A' <= c <= 'Z',
    ensures
        reply_of(Some(c)) == reply_of(Some(((c as u32) + 32) as char)),
{
    let l = ((c as u32) + 32) as char;
    assert(c == 'U' <==> l == 'u');
    assert(c == 'A' <==> l == 'a');
    assert(c == 'C' <==> l == 'c');
    assert(l != 'U' && l != 'A' && l != 'C');
}

/// The output of a rewritten equation keeps the function of the original
/// one: when the complement was chosen, the output is the same pin with
/// the same suffix and its negation inverted; otherwise it is unchanged.
/// AR and SP are never inverted.
pub proof fn lemma_new_lhs_keeps_output(lhs: LHS, flipped: bool)
    ensures
        !flipped ==> new_lhs(lhs, flipped) == lhs,
        lhs matches LHS::Pin((pin, suffix)) ==> (flipped ==> new_lhs(lhs, flipped) == LHS::Pin(
            (Pin { pin: pin.pin, neg: !pin.neg }, suffix),
        )),
        !(lhs is Pin) ==> new_lhs(lhs, flipped) == lhs,
        new_lhs(new_lhs(lhs, flipped), flipped) == lhs,
{
}

/// Splicing one rewrite into `n` lines gives `n - (end - start + 1) + 1`
/// lines: the lines before `start` unchanged, then the rewrite's text, then
/// exactly the lines after `end`.
pub proof fn lemma_splice_lines(lines: Seq<String>, edit: Edit)
    requires
        1 <= edit.start <= edit.end <= lines.len(),
    ensures
        splice(lines, edit).len() == lines.len() - (edit.end - edit.start + 1) + 1,
        forall|i: int| 0 <= i < edit.start - 1 ==> #[trigger] splice(lines, edit)[i] == lines[i],
        splice(lines, edit)[edit.start - 1] == edit.text,
        forall|j: int|
            0 <= j < lines.len() - edit.end ==> #[trigger] splice(lines, edit)[edit.start + j] == lines[edit.end
                + j],
{
}

/// Applying a single rewrite is splicing it in, and applying several
/// applies the last one first.
pub proof fn lemma_spliced_steps(lines: Seq<String>, edits: Seq<Edit>, edit: Edit)
    ensures
        spliced(lines, seq![edit]) == splice(lines, edit),
        spliced(lines, edits.push(edit)) == spliced(splice(lines, edit), edits),
{
    assert(seq![edit].drop_last() =~= Seq::<Edit>::empty());
    assert(spliced(splice(lines, edit), Seq::<Edit>::empty()) == splice(lines, edit));
    assert(edits.push(edit).drop_last() =~= edits);
}

/// The character that a reply is read from is the first one of the line
/// that is not whitespace: everything before it is whitespace, and there is
/// none exactly when the line is all whitespace.
pub proof fn lemma_first_non_whitespace(s: Seq<char>)
    ensures
        first_non_whitespace(s) is None <==> forall|i: int| 0 <= i < s.len() ==> spec_is_whitespace(#[trigger] s[i]),
        first_non_whitespace(s) matches Some(c) ==> exists|k: int|
            0 <= k < s.len() && #[trigger] s[k] == c && !spec_is_whitespace(c) && forall|i: int|
                0 <= i < k ==> spec_is_whitespace(#[trigger] s[i]),
    decreases s.len(),
{
    if s.len() > 0 {
        lemma_first_non_whitespace(s.drop_first());
        let t = s.drop_first();
        if spec_is_whitespace(s[0]) {
            if first_non_whitespace(t) is None {
                assert forall|i: int| 0 <= i < s.len() implies spec_is_whitespace(#[trigger] s[i]) by {
                    if i > 0 {
                        assert(s[i] == t[i - 1]);
                    }
                }
            } else {
                let c = first_non_whitespace(t)->0;
                let k = choose|k: int|
                    0 <= k < t.len() && #[trigger] t[k] == c && !spec_is_whitespace(c) && forall|i: int|
                        0 <= i < k ==> spec_is_whitespace(#[trigger] t[i]);
                assert(s[k + 1] == c);
                assert forall|i: int| 0 <= i < k + 1 implies spec_is_whitespace(#[trigger] s[i]) by {
                    if i > 0 {
                        assert(s[i] == t[i - 1]);
                    }
                }
                assert(!(forall|i: int| 0 <= i < t.len() ==> spec_is_whitespace(#[trigger] t[i])));
                let j = choose|j: int| 0 <= j < t.len() && !spec_is_whitespace(#[trigger] t[j]);
                assert(s[j + 1] == t[j]);
            }
        } else {
            assert(s[0] == s[0]);
        }
    }
}

} // verus!
