//! The edit interface for the presentation layer: messages, text-input
//! filtering, and addressing a square by its text-box id.

use vstd::prelude::*;

use crate::board::digit_ok;
use crate::board::set_square_rel;
use crate::board::Sudoku;
use crate::ops::board_blank;
use crate::ops::clear_rel;
use crate::ops::lock_rel;
use crate::ops::refresh_all_rel;
use crate::solver::solve_done_rel;
use crate::solver::solve_keeps;
use crate::solver::solve_step_rel;

verus! {

/// One user action from the presentation layer.
#[derive(Debug, Clone)]
pub enum Message {
    Reset,
    Lock,
    Clear,
    TextChanged(String, String),
    Solve,
    SolveNext,
    Check,
    Options,
}

/// A character accepted into a square: an ASCII digit 1-9.
pub open spec fn digit_char(c: char) -> bool {
    '1' <= c <= '9'
}

/// The accepted digit characters of `s`, kept in order.
pub open spec fn filter_digits(s: Seq<char>) -> Seq<char>
    decreases s.len(),
{
    if s.len() == 0 {
        Seq::<char>::empty()
    } else if digit_char(s[0]) {
        seq![s[0]] + filter_digits(s.drop_first())
    } else {
        filter_digits(s.drop_first())
    }
}

/// The text a square shows after typing `input` over `prev`: filter the
/// input down to digits 1-9; an empty result clears the square; if exactly
/// two digits remain and the first matches the previous single-character
/// text, the newly typed second digit is kept; otherwise the last digit is.
pub open spec fn new_square_text(prev: Seq<char>, input: Seq<char>) -> Seq<char> {
    let f = filter_digits(input);
    if f.len() == 0 {
        Seq::<char>::empty()
    } else if f.len() == 2 && prev.len() == 1 && f[0] == prev[0] {
        seq![f[1]]
    } else {
        seq![f[f.len() - 1]]
    }
}

/// The digit character for `d`.
pub open spec fn char_of_digit(d: u32) -> char {
    if d == 0 {
        '0'
    } else if d == 1 {
        '1'
    } else if d == 2 {
        '2'
    } else if d == 3 {
        '3'
    } else if d == 4 {
        '4'
    } else if d == 5 {
        '5'
    } else if d == 6 {
        '6'
    } else if d == 7 {
        '7'
    } else if d == 8 {
        '8'
    } else {
        '9'
    }
}

/// The digit value of an ASCII digit character.
pub open spec fn digit_of_char(c: char) -> u32 {
    (c as u32 - 48) as u32
}

/// The id text that the presentation layer gives the text box of column `c`
/// and row `r`.
pub open spec fn canonical_square_id(c: u32, r: u32) -> Seq<char> {
    seq!['s', 'q', 'u', 'a', 'r', 'e', '-', 'C', char_of_digit(c), '-', 'R', char_of_digit(r)]
}

/// The indices that the square-id pattern yields on a given id text.
pub uninterp spec fn square_id_capture(id: Seq<char>) -> Option<(u32, u32)>;

/// Relies on the regex crate: `Regex::new` compiles the fixed square-id
/// pattern `square-C(\d+)-R(\d+)` (a valid pattern, so `new` cannot fail)
/// and `Regex::captures` finds the leftmost match, in which both numbered
/// groups take part with at least one digit each.  The first character of
/// each group goes through `char::to_digit`, which yields at most 9 in base
/// ten.  The whole result is a function of the id text alone, and on an id
/// that is exactly `square-C<c>-R<r>` with one digit each the groups capture
/// those digits.
#[verifier::external_body]
fn capture_square_id(id: &str) -> (cap: Option<(u32, u32)>)
    ensures
        cap == square_id_capture(id@),
        forall|c: u32, r: u32|
            c <= 9 && r <= 9 && id@ == #[trigger] canonical_square_id(c, r) ==> cap == Some(
                (c, r),
            ),
        cap matches Some((c, r)) ==> c <= 9 && r <= 9,
{
    let re = regex::Regex::new(r"square-C(\d+)-R(\d+)").unwrap();
    let caps = match re.captures(id) {
        Some(m) => m,
        None => return None,
    };
    let c = caps.get(1).unwrap().as_str().chars().next().unwrap().to_digit(10);
    let r = caps.get(2).unwrap().as_str().chars().next().unwrap().to_digit(10);
    match (c, r) {
        (Some(c), Some(r)) => Some((c, r)),
        _ => None,
    }
}

/// Every character that the digit filter keeps is a digit 1-9.
pub proof fn lemma_filter_digits_chars(s: Seq<char>)
    ensures
        forall|k: int|
            0 <= k < filter_digits(s).len() ==> digit_char(#[trigger] filter_digits(s)[k]),
    decreases s.len(),
{
    if s.len() > 0 {
        lemma_filter_digits_chars(s.drop_first());
        assert forall|k: int| 0 <= k < filter_digits(s).len() implies digit_char(
            #[trigger] filter_digits(s)[k],
        ) by {
            if digit_char(s[0]) {
                if k > 0 {
                    assert(filter_digits(s)[k] == filter_digits(s.drop_first())[k - 1]);
                }
            } else {
                assert(filter_digits(s)[k] == filter_digits(s.drop_first())[k]);
            }
        }
    }
}

/// Filtering a text extended by one character keeps the filtered prefix and
/// appends the character exactly if it is a digit 1-9.
pub proof fn lemma_filter_digits_snoc(s: Seq<char>, x: char)
    ensures
        filter_digits(s.push(x)) == filter_digits(s) + (if digit_char(x) {
            seq![x]
        } else {
            Seq::<char>::empty()
        }),
    decreases s.len(),
{
    let tail = if digit_char(x) {
        seq![x]
    } else {
        Seq::<char>::empty()
    };
    if s.len() == 0 {
        assert(s.push(x).len() == 1);
        assert(s.push(x)[0] == x);
        assert(s.push(x).drop_first() =~= Seq::<char>::empty());
        assert(filter_digits(Seq::<char>::empty()) =~= Seq::<char>::empty());
        if digit_char(x) {
            assert(filter_digits(s.push(x)) =~= seq![x] + filter_digits(Seq::<char>::empty()));
            assert(filter_digits(s.push(x)) =~= tail);
        } else {
            assert(filter_digits(s.push(x)) =~= filter_digits(s.push(x).drop_first()));
            assert(filter_digits(s.push(x)) =~= tail);
        }
        assert(filter_digits(s) + tail =~= tail);
    } else {
        assert(s.push(x)[0] == s[0]);
        assert(s.push(x).drop_first() =~= s.drop_first().push(x));
        lemma_filter_digits_snoc(s.drop_first(), x);
        if digit_char(s[0]) {
            assert(filter_digits(s.push(x)) =~= seq![s[0]] + filter_digits(
                s.drop_first().push(x),
            ));
            assert(filter_digits(s.push(x)) =~= filter_digits(s) + tail);
        }
    }
}

/// Computes the text a square shows after typing `input` over its previous
/// text `prev`, by the digit-filtering rule of `new_square_text`.
pub fn get_new_square_text(prev: &str, input: &str) -> (t: String)
    ensures
        t@ == new_square_text(prev@, input@),
{
    let n = input.unicode_len();
    let mut digits: Vec<char> = Vec::new();
    let mut i: usize = 0;
    while i < n
        invariant
            i <= n,
            n == input@.len(),
            digits@ == filter_digits(input@.take(i as int)),
        decreases n - i,
    {
        let ch = input.get_char(i);
        proof {
            lemma_filter_digits_snoc(input@.take(i as int), input@[i as int]);
            assert(input@.take(i as int + 1) =~= input@.take(i as int).push(input@[i as int]));
        }
        if ch >= '1' && ch <= '9' {
            digits.push(ch);
        }
        i += 1;
    }
    proof {
        assert(input@.take(n as int) =~= input@);
    }
    if digits.len() == 0 {
        let empty = String::new();
        return empty;
    }
    let chosen: char;
    if digits.len() == 2 && prev.unicode_len() == 1 {
        if digits[0] == prev.get_char(0) {
            chosen = digits[1];
        } else {
            chosen = digits[digits.len() - 1];
        }
    } else {
        chosen = digits[digits.len() - 1];
    }
    proof {
        lemma_filter_digits_chars(input@);
    }
    digit_char_string(chosen)
}

/// Builds the one-character text for a digit character 1-9.
fn digit_char_string(c: char) -> (t: String)
    requires
        digit_char(c),
    ensures
        t@ == seq![c],
{
    let t: String;
    if c == '1' {
        t = String::from_str("1");
        proof {
            reveal_strlit("1");
            assert(t@ =~= seq!['1']);
        }
    } else if c == '2' {
        t = String::from_str("2");
        proof {
            reveal_strlit("2");
            assert(t@ =~= seq!['2']);
        }
    } else if c == '3' {
        t = String::from_str("3");
        proof {
            reveal_strlit("3");
            assert(t@ =~= seq!['3']);
        }
    } else if c == '4' {
        t = String::from_str("4");
        proof {
            reveal_strlit("4");
            assert(t@ =~= seq!['4']);
        }
    } else if c == '5' {
        t = String::from_str("5");
        proof {
            reveal_strlit("5");
            assert(t@ =~= seq!['5']);
        }
    } else if c == '6' {
        t = String::from_str("6");
        proof {
            reveal_strlit("6");
            assert(t@ =~= seq!['6']);
        }
    } else if c == '7' {
        t = String::from_str("7");
        proof {
            reveal_strlit("7");
            assert(t@ =~= seq!['7']);
        }
    } else if c == '8' {
        t = String::from_str("8");
        proof {
            reveal_strlit("8");
            assert(t@ =~= seq!['8']);
        }
    } else {
        t = String::from_str("9");
        proof {
            reveal_strlit("9");
            assert(t@ =~= seq!['9']);
        }
    }
    t
}

/// `post` is `pre` with the square at `(c, r)` holding no value; everything
/// else, the square's cache and `given` flag included, is untouched.
pub open spec fn value_cleared_rel(pre: Sudoku, post: Sudoku, c: int, r: int) -> bool {
    &&& post.grid@.len() == pre.grid@.len()
    &&& forall|i: int|
        0 <= i < pre.grid@.len() ==> (#[trigger] post.grid@[i])@.len() == pre.grid@[i]@.len()
    &&& post.square_at(c, r).value is None
    &&& post.square_at(c, r).given == pre.square_at(c, r).given
    &&& post.square_at(c, r).options == pre.square_at(c, r).options
    &&& forall|i: int, j: int|
        0 <= i < 9 && 0 <= j < 9 && !(i == c && j == r) ==> #[trigger] post.square_at(i, j)
            == pre.square_at(i, j)
    &&& post.solved == pre.solved
    &&& post.status == pre.status
}

/// The one-character text a square shows: its digit, or nothing.
pub open spec fn square_text(pre: Sudoku, c: int, r: int) -> Seq<char> {
    match pre.value_at(c, r) {
        Some(v) => seq![char_of_digit(v)],
        None => Seq::<char>::empty(),
    }
}

/// `post` is `pre` after a text edit addressed by `cap`: an unmatched or
/// out-of-range id changes nothing; otherwise the filtered input either
/// assigns the resulting digit to the addressed square (solver flags reset)
/// or, when no digit remains, clears the square's value in place.
pub open spec fn text_update_rel(
    pre: Sudoku,
    post: Sudoku,
    cap: Option<(u32, u32)>,
    input: Seq<char>,
) -> bool {
    match cap {
        None => post == pre,
        Some((c, r)) => {
            if c >= 9 || r >= 9 {
                post == pre
            } else {
                let t = new_square_text(square_text(pre, c as int, r as int), input);
                if t.len() > 0 {
                    set_square_rel(pre, post, c as int, r as int, digit_of_char(t[0]), false)
                } else {
                    value_cleared_rel(pre, post, c as int, r as int)
                }
            }
        },
    }
}

impl Sudoku {
    /// Applies a text edit from the presentation layer: the id names the
    /// edited text box, and the typed text is filtered down to one digit
    /// that is assigned to the square, or to nothing, which clears it.  An
    /// id that does not address a square on the board changes nothing.
    pub fn square_text_update(&mut self, id: &str, input: &str)
        requires
            old(self).grid_wf(),
        ensures
            final(self).grid_wf(),
            text_update_rel(*old(self), *final(self), square_id_capture(id@), input@),
    {
        let cap = capture_square_id(id);
        let (c, r) = match cap {
            Some(pair) => pair,
            None => {
                return ;
            },
        };
        if c >= 9 || r >= 9 {
            return ;
        }
        let c = c as usize;
        let r = r as usize;
        let prev: String = match self.grid[c][r].value {
            Some(v) => {
                proof {
                    assert(self.value_at(c as int, r as int) == Some(v));
                    assert(digit_ok(v));
                }
                digit_value_string(v)
            },
            None => String::new(),
        };
        assert(prev@ == square_text(*old(self), c as int, r as int));
        let new_text = get_new_square_text(prev.as_str(), input);
        if new_text.as_str().unicode_len() > 0 {
            let ch = new_text.as_str().get_char(0);
            proof {
                lemma_filter_digits_chars(input@);
                assert(digit_char(ch));
            }
            let val = ch as u32 - 48;
            assert(val == digit_of_char(new_text@[0]));
            assert(digit_ok(val));
            self.set_square(c, r, val, false);
        } else {
            self.grid[c][r].value = None;
            proof {
                assert forall|i: int, j: int|
                    0 <= i < 9 && 0 <= j < 9 && !(i == c as int && j == r as int)
                    implies #[trigger] self.square_at(i, j) == old(self).square_at(i, j) by {
                    if i != c as int {
                        assert(self.grid@[i] == old(self).grid@[i]);
                    }
                }
                assert forall|i: int, j: int|
                    0 <= i < 9 && 0 <= j < 9 && (#[trigger] self.value_at(i, j)) is Some
                    implies self.value_at(i, j) == old(self).value_at(i, j) by {
                    if !(i == c as int && j == r as int) {
                        assert(self.square_at(i, j) == old(self).square_at(i, j));
                    }
                }
            }
        }
    }
}

/// Builds the one-character text for a digit value 1-9.
fn digit_value_string(v: u32) -> (t: String)
    requires
        digit_ok(v),
    ensures
        t@ == seq![char_of_digit(v)],
{
    let c: char = (48 + v as u8) as char;
    assert(digit_char(c));
    assert(c == char_of_digit(v));
    digit_char_string(c)
}

/// `post` is `pre` after handling one message of the presentation layer.
pub open spec fn update_rel(pre: Sudoku, post: Sudoku, message: Message) -> bool {
    match message {
        Message::TextChanged(id, input) => text_update_rel(
            pre,
            post,
            square_id_capture(id@),
            input@,
        ),
        Message::Reset => board_blank(post),
        Message::Lock => lock_rel(pre, post),
        Message::Clear => clear_rel(pre, post),
        Message::Solve => {
            &&& pre.fills_preserved(post)
            &&& solve_keeps(pre, post)
            &&& solve_done_rel(pre, post)
        },
        Message::SolveNext => {
            &&& pre.fills_preserved(post)
            &&& solve_keeps(pre, post)
            &&& solve_step_rel(pre, post)
        },
        Message::Check => crate::board::check_rel(pre, post, pre.board_solved()),
        Message::Options => refresh_all_rel(pre, post),
    }
}

impl Sudoku {
    /// Handles one message of the presentation layer: square edits, locking
    /// and clearing, candidate display, solving, and the solved check.
    pub fn update(&mut self, message: Message)
        requires
            old(self).grid_wf(),
        ensures
            final(self).grid_wf(),
            update_rel(*old(self), *final(self), message),
    {
        match message {
            Message::TextChanged(id, input) => {
                self.square_text_update(id.as_str(), input.as_str());
            },
            Message::Reset => {
                self.reset_board();
            },
            Message::Lock => {
                self.lock_givens();
            },
            Message::Clear => {
                self.clear_non_givens();
            },
            Message::Solve => {
                self.solve(false);
            },
            Message::SolveNext => {
                self.solve(true);
            },
            Message::Check => {
                self.check_solved();
            },
            Message::Options => {
                self.refresh_all_candidates();
            },
        }
    }
}

} // verus!
