use vstd::prelude::*;
use vstd::string::StringExecFns;

verus! {

/// Invalid input to an interval algorithm.
#[derive(Debug, Clone, Copy, PartialEq, Eq, Structural)]
pub enum IntervalError {
    /// The start and end slices have different lengths.
    LengthMismatch { starts_len: usize, ends_len: usize },
    /// An interval's start exceeds its end, at the given zero-based row index.
    InvalidInterval { index: usize },
    /// The weight slice and the interval slices have different lengths.
    WeightLengthMismatch { intervals_len: usize, weights_len: usize },
    /// A selected objective does not fit in `i128`.
    WeightOverflow,
    /// More than `u32::MAX + 1` lanes would be needed.
    TooManyLanes,
    /// The target start exceeds the target end.
    InvalidTarget,
    /// The intervals cannot continuously cover the target.
    InfeasibleCover,
    /// A cost is negative, at the given zero-based row index.
    NegativeCost { index: usize },
    /// The cost slice and the interval slices have different lengths.
    CostLengthMismatch { intervals_len: usize, costs_len: usize },
    /// The target can be covered, but no optimal cover cost fits in `i128`.
    CostOverflow,
}


/// The decimal digit `d` as a character.
pub open spec fn digit_char(d: nat) -> char {
    if d == 0 {
        '0'
    } else if d == 1 {
        '1'
    } else if d == 2 {
        '2'
    } else if d == 3 {
        '3'
    } else if d == 4 {
        '4'
    } else if d == 5 {
        '5'
    } else if d == 6 {
        '6'
    } else if d == 7 {
        '7'
    } else if d == 8 {
        '8'
    } else {
        '9'
    }
}

/// The decimal digits of `n`, most significant first, without leading zeros.
pub open spec fn decimal(n: nat) -> Seq<char>
    decreases n,
{
    if n < 10 {
        seq![digit_char(n)]
    } else {
        decimal(n / 10) + seq![digit_char(n % 10)]
    }
}

/// Appends the decimal digits of `n`.
fn push_decimal(s: &mut String, n: usize)
    ensures
        final(s)@ == old(s)@ + decimal(n as nat),
    decreases n,
{
    if n >= 10 {
        push_decimal(s, n / 10);
    }
    let d = n % 10;
    let digit = if d == 0 {
        "0"
    } else if d == 1 {
        "1"
    } else if d == 2 {
        "2"
    } else if d == 3 {
        "3"
    } else if d == 4 {
        "4"
    } else if d == 5 {
        "5"
    } else if d == 6 {
        "6"
    } else if d == 7 {
        "7"
    } else if d == 8 {
        "8"
    } else {
        "9"
    };
    proof {
        reveal_strlit("0");
        reveal_strlit("1");
        reveal_strlit("2");
        reveal_strlit("3");
        reveal_strlit("4");
        reveal_strlit("5");
        reveal_strlit("6");
        reveal_strlit("7");
        reveal_strlit("8");
        reveal_strlit("9");
        assert(digit@ =~= seq![digit_char(d as nat)]);
    }
    s.append(digit);
    proof {
        if n >= 10 {
            assert(decimal(n as nat) == decimal((n / 10) as nat) + seq![digit_char((n % 10) as nat)]);
        }
    }
}

impl IntervalError {
    /// The error's message, as its display would show it.
    pub open spec fn message(self) -> Seq<char> {
        match self {
            IntervalError::LengthMismatch { starts_len, ends_len } => "start and end lengths differ: "@
                + decimal(starts_len as nat) + " starts, "@ + decimal(ends_len as nat) + " ends"@,
            IntervalError::InvalidInterval { index } => "interval at index "@ + decimal(index as nat)
                + " has start greater than end"@,
            IntervalError::WeightLengthMismatch { intervals_len, weights_len } => "interval and weight lengths differ: "@
                + decimal(intervals_len as nat) + " intervals, "@ + decimal(weights_len as nat)
                + " weights"@,
            IntervalError::WeightOverflow => "selected weight total overflows i128"@,
            IntervalError::TooManyLanes => "lane IDs exceed u32::MAX"@,
            IntervalError::InvalidTarget => "target start is greater than target end"@,
            IntervalError::InfeasibleCover => "target cannot be covered by the intervals"@,
            IntervalError::NegativeCost { index } => "cost at index "@ + decimal(index as nat) + " is negative"@,
            IntervalError::CostLengthMismatch { intervals_len, costs_len } => "interval and cost lengths differ: "@
                + decimal(intervals_len as nat) + " intervals, "@ + decimal(costs_len as nat) + " costs"@,
            IntervalError::CostOverflow => "optimal cover cost overflows i128"@,
        }
    }

    /// Renders the error as a human-readable message.
    pub fn to_string(&self) -> (s: String)
        ensures
            s@ == self.message(),
    {
        match self {
            IntervalError::LengthMismatch { starts_len, ends_len } => {
                let mut s = String::from_str("start and end lengths differ: ");
                push_decimal(&mut s, *starts_len);
                s.append(" starts, ");
                push_decimal(&mut s, *ends_len);
                s.append(" ends");
                s
            },
            IntervalError::InvalidInterval { index } => {
                let mut s = String::from_str("interval at index ");
                push_decimal(&mut s, *index);
                s.append(" has start greater than end");
                s
            },
            IntervalError::WeightLengthMismatch { intervals_len, weights_len } => {
                let mut s = String::from_str("interval and weight lengths differ: ");
                push_decimal(&mut s, *intervals_len);
                s.append(" intervals, ");
                push_decimal(&mut s, *weights_len);
                s.append(" weights");
                s
            },
            IntervalError::WeightOverflow => String::from_str("selected weight total overflows i128"),
            IntervalError::TooManyLanes => String::from_str("lane IDs exceed u32::MAX"),
            IntervalError::InvalidTarget => String::from_str("target start is greater than target end"),
            IntervalError::InfeasibleCover => String::from_str("target cannot be covered by the intervals"),
            IntervalError::NegativeCost { index } => {
                let mut s = String::from_str("cost at index ");
                push_decimal(&mut s, *index);
                s.append(" is negative");
                s
            },
            IntervalError::CostLengthMismatch { intervals_len, costs_len } => {
                let mut s = String::from_str("interval and cost lengths differ: ");
                push_decimal(&mut s, *intervals_len);
                s.append(" intervals, ");
                push_decimal(&mut s, *costs_len);
                s.append(" costs");
                s
            },
            IntervalError::CostOverflow => String::from_str("optimal cover cost overflows i128"),
        }
    }
}

} // verus!
