//! The single error kind of the library: a record of one failed match
//! attempt.

use vstd::prelude::*;

use vstd::string::StringExecFns;

verus! {

/// Raised by the matcher when the greedy walk stops at a node that
/// carries no output: an expected, recoverable outcome of tokenizing
/// malformed input.
#[derive(Debug, Clone, PartialEq, Eq)]
pub struct TransitionError {
    /// The characters already matched on the failed attempt.
    pub consumed_str: String,
    /// The character that had no outgoing transition; `None` means the
    /// input ended before an accepting node was reached.
    pub character: Option<char>,
    /// Absolute character index at which the failed attempt began.
    pub start: usize,
    /// Absolute character index at which the walk stopped.
    pub end: usize,
}

/// Ghost counterpart of `TransitionError`.
pub struct TransitionErrorView {
    pub consumed: Seq<char>,
    pub character: Option<char>,
    pub start: int,
    pub end: int,
}

/// Relies on `String::push`: appends the given character to the end of
/// the string.
#[verifier::external_body]
pub(crate) fn push_char(s: &mut String, c: char)
    ensures
        final(s)@ == old(s)@.push(c),
{
    s.push(c);
}

impl View for TransitionError {
    type V = TransitionErrorView;

    open spec fn view(&self) -> TransitionErrorView {
        TransitionErrorView {
            consumed: self.consumed_str@,
            character: self.character,
            start: self.start as int,
            end: self.end as int,
        }
    }
}

/// The character standing for a decimal digit.
pub open spec fn digit_char(d: nat) -> char {
    if d == 0 { '0' }
    else if d == 1 { '1' }
    else if d == 2 { '2' }
    else if d == 3 { '3' }
    else if d == 4 { '4' }
    else if d == 5 { '5' }
    else if d == 6 { '6' }
    else if d == 7 { '7' }
    else if d == 8 { '8' }
    else { '9' }
}

/// The decimal rendering of `n`, most significant digit first.
pub open spec fn dec_digits(n: nat) -> Seq<char>
    decreases n,
{
    if n < 10 {
        seq![digit_char(n)]
    } else {
        dec_digits(n / 10).push(digit_char(n % 10))
    }
}

/// What the error's human-readable description says: where the walk
/// failed, what it had consumed, and on which character it stopped.
pub open spec fn message_spec(e: TransitionErrorView) -> Seq<char> {
    match e.character {
        Some(ch) => {
            if e.consumed.len() == 0 {
                "no input path starts with `"@ + seq![ch] + "`, index: "@ + dec_digits(
                    e.start as nat,
                )
            } else if e.start == e.end {
                "no transition `"@ + e.consumed + "` -> `"@ + seq![ch] + "`, index: "@
                    + dec_digits(e.start as nat)
            } else {
                "no transition `"@ + e.consumed + "` -> `"@ + seq![ch] + "`, range: "@
                    + dec_digits(e.start as nat) + ".."@ + dec_digits(e.end as nat)
            }
        },
        None => {
            if e.start == e.end {
                "`"@ + e.consumed + "` must transition, index: "@ + dec_digits(e.start as nat)
            } else {
                "`"@ + e.consumed + "` must transition, range: "@ + dec_digits(e.start as nat)
                    + ".."@ + dec_digits(e.end as nat)
            }
        },
    }
}

/// The exec form of a decimal digit.
fn digit_of(d: usize) -> (c: char)
    requires
        d < 10,
    ensures
        c == digit_char(d as nat),
{
    if d == 0 { '0' }
    else if d == 1 { '1' }
    else if d == 2 { '2' }
    else if d == 3 { '3' }
    else if d == 4 { '4' }
    else if d == 5 { '5' }
    else if d == 6 { '6' }
    else if d == 7 { '7' }
    else if d == 8 { '8' }
    else { '9' }
}

/// Appends the decimal rendering of `n`.
fn push_dec(s: &mut String, n: usize)
    ensures
        final(s)@ == old(s)@ + dec_digits(n as nat),
    decreases n,
{
    if n >= 10 {
        push_dec(s, n / 10);
        let c = digit_of(n % 10);
        push_char(s, c);
        proof {
            assert(old(s)@ + dec_digits((n / 10) as nat).push(digit_char((n % 10) as nat))
                =~= (old(s)@ + dec_digits((n / 10) as nat)).push(digit_char((n % 10) as nat)));
        }
    } else {
        let c = digit_of(n);
        push_char(s, c);
        proof {
            assert(old(s)@ + seq![digit_char(n as nat)] =~= old(s)@.push(digit_char(n as nat)));
        }
    }
}

impl TransitionError {
    /// The error as human-readable text: which transition was missing,
    /// what had been consumed, and the index or range of the failed
    /// attempt within the original input.
    pub fn message(&self) -> (r: String)
        ensures
            r@ == message_spec(self@),
    {
        let mut s = String::new();
        match self.character {
            Some(ch) => {
                if self.consumed_str.as_str().is_empty() {
                    s.append("no input path starts with `");
                    push_char(&mut s, ch);
                    proof {
                        assert(s@ =~= "no input path starts with `"@ + seq![ch]);
                    }
                    s.append("`, index: ");
                    push_dec(&mut s, self.start);
                } else if self.start == self.end {
                    s.append("no transition `");
                    s.append(self.consumed_str.as_str());
                    s.append("` -> `");
                    push_char(&mut s, ch);
                    proof {
                        assert(s@ =~= "no transition `"@ + self.consumed_str@ + "` -> `"@
                            + seq![ch]);
                    }
                    s.append("`, index: ");
                    push_dec(&mut s, self.start);
                } else {
                    s.append("no transition `");
                    s.append(self.consumed_str.as_str());
                    s.append("` -> `");
                    push_char(&mut s, ch);
                    proof {
                        assert(s@ =~= "no transition `"@ + self.consumed_str@ + "` -> `"@
                            + seq![ch]);
                    }
                    s.append("`, range: ");
                    push_dec(&mut s, self.start);
                    s.append("..");
                    push_dec(&mut s, self.end);
                }
            },
            None => {
                if self.start == self.end {
                    s.append("`");
                    s.append(self.consumed_str.as_str());
                    s.append("` must transition, index: ");
                    push_dec(&mut s, self.start);
                } else {
                    s.append("`");
                    s.append(self.consumed_str.as_str());
                    s.append("` must transition, range: ");
                    push_dec(&mut s, self.start);
                    s.append("..");
                    push_dec(&mut s, self.end);
                }
            },
        }
        s
    }
}

} // verus!
