//! Error types for constraint solving.

use vstd::prelude::*;
use vstd::string::*;

verus! {

/// A contradiction was detected: some variable has an empty domain.
#[derive(Debug, Clone, Copy, PartialEq, Eq)]
pub struct Contradiction {
    /// The variable index that became empty (for a constraint over no variable, 0).
    pub variable: usize,
}

/// Error returned by [`Solver::solve`](crate::Solver::solve).
#[derive(Debug, Clone, Copy, PartialEq, Eq)]
pub enum SolveError {
    /// A contradiction was detected during propagation.
    Contradiction(Contradiction),
    /// Search exhausted all possibilities without finding a solution.
    Unsatisfiable,
    /// Maximum number of backtracks exceeded.
    BacktrackLimitExceeded,
}

impl From<Contradiction> for SolveError {
    fn from(c: Contradiction) -> (e: Self) {
        SolveError::Contradiction(c)
    }
}

impl vstd::std_specs::convert::FromSpecImpl<Contradiction> for SolveError {
    open spec fn obeys_from_spec() -> bool {
        true
    }

    open spec fn from_spec(c: Contradiction) -> Self {
        SolveError::Contradiction(c)
    }
}

/// The character of the decimal digit `d`, for `d` from 0 to 9.
pub open spec fn digit_char(d: int) -> char {
    if d == 0 { '0' }
    else if d == 1 { '1' }
    else if d == 2 { '2' }
    else if d == 3 { '3' }
    else if d == 4 { '4' }
    else if d == 5 { '5' }
    else if d == 6 { '6' }
    else if d == 7 { '7' }
    else if d == 8 { '8' }
    else { '9' }
}

/// `n` written in decimal, without leading zeros.
pub open spec fn decimal_text(n: nat) -> Seq<char>
    decreases n,
{
    if n < 10 {
        seq![digit_char(n as int)]
    } else {
        decimal_text(n / 10) + seq![digit_char((n % 10) as int)]
    }
}

/// The text of the decimal digit `d`.
fn digit_str(d: usize) -> (s: &'static str)
    requires
        d < 10,
    ensures
        s@ == seq![digit_char(d as int)],
{
    proof {
        reveal_strlit("0");
        reveal_strlit("1");
        reveal_strlit("2");
        reveal_strlit("3");
        reveal_strlit("4");
        reveal_strlit("5");
        reveal_strlit("6");
        reveal_strlit("7");
        reveal_strlit("8");
        reveal_strlit("9");
    }
    if d == 0 { "0" }
    else if d == 1 { "1" }
    else if d == 2 { "2" }
    else if d == 3 { "3" }
    else if d == 4 { "4" }
    else if d == 5 { "5" }
    else if d == 6 { "6" }
    else if d == 7 { "7" }
    else if d == 8 { "8" }
    else { "9" }
}

/// `n` written in decimal.
pub fn decimal(n: usize) -> (s: String)
    ensures
        s@ == decimal_text(n as nat),
    decreases n,
{
    let mut s = if n >= 10 { decimal(n / 10) } else { String::new() };
    s.append(digit_str(n % 10));
    proof {
        if n < 10 {
            assert(s@ =~= seq![digit_char(n as int)]);
        }
    }
    s
}

impl Contradiction {
    /// The message that tells of the contradiction.
    pub open spec fn message_text(self) -> Seq<char> {
        "contradiction: variable "@ + decimal_text(self.variable as nat) + " has empty domain"@
    }

    /// The message that tells of the contradiction, such as
    /// "contradiction: variable 3 has empty domain".
    pub fn to_string(&self) -> (s: String)
        ensures
            s@ == self.message_text(),
    {
        let mut s = String::from_str("contradiction: variable ");
        let number = decimal(self.variable);
        s.append(number.as_str());
        s.append(" has empty domain");
        s
    }
}

impl SolveError {
    /// The message that tells of the error.
    pub open spec fn message_text(self) -> Seq<char> {
        match self {
            SolveError::Contradiction(c) => c.message_text(),
            SolveError::Unsatisfiable => "no solution exists"@,
            SolveError::BacktrackLimitExceeded => "backtrack limit exceeded"@,
        }
    }

    /// The message that tells of the error: the contradiction's, "no solution exists" or
    /// "backtrack limit exceeded".
    pub fn to_string(&self) -> (s: String)
        ensures
            s@ == self.message_text(),
    {
        match self {
            SolveError::Contradiction(c) => c.to_string(),
            SolveError::Unsatisfiable => String::from_str("no solution exists"),
            SolveError::BacktrackLimitExceeded => String::from_str("backtrack limit exceeded"),
        }
    }
}

} // verus!
