//! The interface state that does not touch the screen: the run state of the
//! visualizer and the keyboard entry of a point count.
use vstd::prelude::*;
use crate::text::{all_digits, digits_value, is_digit, lemma_digits_prefix, parse_usize_spec};

verus! {

broadcast use vstd::seq_lib::group_seq_properties;

/// Whether the user is editing nodes, watching a run, or looking at its end.
#[derive(Copy, Clone, PartialEq, Eq, Debug)]
pub enum AppState {
    Edit,
    Running,
    Finished,
}

/// What the run/pause key does to the visualizer.
#[derive(Copy, Clone, PartialEq, Eq, Debug)]
pub struct ToggleOutcome {
    pub state: AppState,
    /// The tour is cleared.
    pub clear_path: bool,
    /// The strategy is reset.
    pub reset_strategy: bool,
}

impl AppState {
    /// The run/pause key: while editing, a problem of at least three nodes
    /// starts running on a cleared tour (fewer nodes: nothing happens); a
    /// running or finished run goes back to editing with the tour cleared
    /// and the strategy reset.
    pub fn toggle_execution(self, node_count: usize) -> (r: ToggleOutcome)
        ensures
            self == AppState::Edit && node_count >= 3 ==> r == (ToggleOutcome {
                state: AppState::Running,
                clear_path: true,
                reset_strategy: false,
            }),
            self == AppState::Edit && node_count < 3 ==> r == (ToggleOutcome {
                state: AppState::Edit,
                clear_path: false,
                reset_strategy: false,
            }),
            self != AppState::Edit ==> r == (ToggleOutcome {
                state: AppState::Edit,
                clear_path: true,
                reset_strategy: true,
            }),
    {
        match self {
            AppState::Edit => {
                if node_count >= 3 {
                    ToggleOutcome { state: AppState::Running, clear_path: true, reset_strategy: false }
                } else {
                    ToggleOutcome { state: AppState::Edit, clear_path: false, reset_strategy: false }
                }
            },
            _ => ToggleOutcome { state: AppState::Edit, clear_path: true, reset_strategy: true },
        }
    }

    /// The state after a strategy step: a run whose step reports completion
    /// is finished; otherwise the state stays.
    pub fn after_step(self, finished: bool) -> (r: AppState)
        ensures
            r == (if self == AppState::Running && finished { AppState::Finished } else { self }),
    {
        match self {
            AppState::Running => if finished {
                AppState::Finished
            } else {
                AppState::Running
            },
            other => other,
        }
    }
}

/// A key that the point-count dialog reacts to.
#[derive(Copy, Clone, PartialEq, Eq, Debug)]
pub enum InputKey {
    /// One of the digit keys, carrying its digit.
    Digit(u8),
    Backspace,
    Escape,
}

/// The point-count dialog: the digits typed so far and whether it is open.
pub struct RandomGeneratorState {
    pub input_text: Vec<char>,
    pub is_active: bool,
}

impl Default for RandomGeneratorState {
    /// A closed dialog with nothing typed.
    fn default() -> (s: Self)
        ensures
            s.input_text@.len() == 0,
            !s.is_active,
    {
        RandomGeneratorState { input_text: Vec::new(), is_active: false }
    }
}

impl RandomGeneratorState {
    /// Reacts to a key while the dialog is open: a digit is appended,
    /// backspace removes the last character, escape closes the dialog and
    /// clears it.  A closed dialog ignores keys.
    pub fn handle_key(&mut self, key: InputKey)
        requires
            key matches InputKey::Digit(d) ==> d < 10,
        ensures
            !old(self).is_active ==> final(self).input_text@ == old(self).input_text@
                && !final(self).is_active,
            old(self).is_active ==> match key {
                InputKey::Digit(d) => final(self).input_text@ == old(self).input_text@.push(
                    (('0' as u32) + d) as char,
                ) && final(self).is_active,
                InputKey::Backspace => final(self).input_text@ == (if old(
                    self,
                ).input_text@.len() == 0 {
                    old(self).input_text@
                } else {
                    old(self).input_text@.drop_last()
                }) && final(self).is_active,
                InputKey::Escape => final(self).input_text@.len() == 0 && !final(self).is_active,
            },
    {
        if !self.is_active {
            return ;
        }
        match key {
            InputKey::Digit(d) => {
                let c = digit_char(d);
                self.input_text.push(c);
            },
            InputKey::Backspace => {
                if self.input_text.len() > 0 {
                    self.input_text.pop();
                }
            },
            InputKey::Escape => {
                self.is_active = false;
                self.input_text.clear();
            },
        }
    }

    /// The typed count, if the text is one (see [`parse_usize_spec`]).
    pub fn get_count(&self) -> (r: Option<usize>)
        ensures
            match parse_usize_spec(self.input_text@) {
                Some(v) => r == Some(v as usize),
                None => r is None,
            },
    {
        let s = &self.input_text;
        let n = s.len();
        let lo: usize = if n > 0 && s[0] == '+' {
            1
        } else {
            0
        };
        let ghost digits = s@.subrange(lo as int, n as int);
        proof {
            if lo == 1 {
                assert(digits =~= s@.drop_first());
            } else {
                assert(digits =~= s@);
            }
        }
        if lo == n {
            return None;
        }
        let mut acc: usize = 0;
        let mut k = lo;
        while k < n
            invariant
                lo <= k <= n,
                n == s@.len(),
                digits == s@.subrange(lo as int, n as int),
                digits == (if s@.len() > 0 && s@[0] == '+' { s@.drop_first() } else { s@ }),
                s@ == self.input_text@,
                forall|q: int| lo <= q < k ==> is_digit(#[trigger] s@[q]),
                acc == digits_value(s@.subrange(lo as int, k as int)),
            decreases n - k,
        {
            let c = s[k];
            let ghost pre = s@.subrange(lo as int, k as int);
            let ghost post = s@.subrange(lo as int, k + 1);
            assert(post.drop_last() =~= pre);
            assert(post.last() == c);
            if !('0' <= c && c <= '9') {
                assert(!is_digit(digits[k - lo]));
                assert(!all_digits(digits));
                assert(parse_usize_spec(self.input_text@) is None);
                return None;
            }
            let d = (c as u32 - '0' as u32) as usize;
            if acc > (usize::MAX - d) / 10 {
                proof {
                    assert(digits_value(post) > usize::MAX);
                    if all_digits(digits) {
                        lemma_digits_prefix(digits, k + 1 - lo);
                        assert(digits.subrange(0, k + 1 - lo) =~= post);
                    }
                    assert(parse_usize_spec(self.input_text@) is None);
                }
                return None;
            }
            acc = acc * 10 + d;
            k = k + 1;
        }
        assert(s@.subrange(lo as int, k as int) =~= digits);
        Some(acc)
    }
}

/// The character of decimal digit `d`.
fn digit_char(d: u8) -> (c: char)
    requires
        d < 10,
    ensures
        c == (('0' as u32) + d) as char,
{
    if d == 0 {
        '0'
    } else if d == 1 {
        '1'
    } else if d == 2 {
        '2'
    } else if d == 3 {
        '3'
    } else if d == 4 {
        '4'
    } else if d == 5 {
        '5'
    } else if d == 6 {
        '6'
    } else if d == 7 {
        '7'
    } else if d == 8 {
        '8'
    } else {
        '9'
    }
}

} // verus!
