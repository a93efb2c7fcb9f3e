//! Rendering of output lines: the visual match marker, decimal numerals, and
//! the index prefix that numbering adds.

use vstd::prelude::*;

verus! {

/// The marker text appended to a line that triggered a match.
pub open spec fn marker_suffix() -> Seq<char> {
    " <------- XXXXXXXXXXXXX"@
}

/// A line with the visual match marker appended.
pub open spec fn marked_line(line: Seq<char>) -> Seq<char> {
    line + marker_suffix()
}

/// The character for one decimal digit.
pub open spec fn digit_char(d: nat) -> char {
    if d == 0 {
        '0'
    } else if d == 1 {
        '1'
    } else if d == 2 {
        '2'
    } else if d == 3 {
        '3'
    } else if d == 4 {
        '4'
    } else if d == 5 {
        '5'
    } else if d == 6 {
        '6'
    } else if d == 7 {
        '7'
    } else if d == 8 {
        '8'
    } else {
        '9'
    }
}

/// The decimal numeral of `n`, most significant digit first, no leading zeros
/// (the numeral of zero is the single digit zero).
pub open spec fn decimal(n: nat) -> Seq<char>
    decreases n,
{
    if n < 10 {
        seq![digit_char(n)]
    } else {
        decimal(n / 10) + seq![digit_char(n % 10)]
    }
}

/// A line prefixed with its document index and a colon-space separator.
pub open spec fn numbered_line(idx: nat, line: Seq<char>) -> Seq<char> {
    decimal(idx) + ": "@ + line
}

/// How one output line is rendered: with its index prefix when numbering is
/// on, the bare line otherwise.
pub open spec fn rendered_line(numbers: bool, idx: nat, line: Seq<char>) -> Seq<char> {
    if numbers {
        numbered_line(idx, line)
    } else {
        line
    }
}

/// The one-character text of a decimal digit.
fn digit_str(d: usize) -> (s: &'static str)
    requires
        d < 10,
    ensures
        s@ == seq![digit_char(d as nat)],
{
    proof {
        reveal_strlit("0");
        reveal_strlit("1");
        reveal_strlit("2");
        reveal_strlit("3");
        reveal_strlit("4");
        reveal_strlit("5");
        reveal_strlit("6");
        reveal_strlit("7");
        reveal_strlit("8");
        reveal_strlit("9");
    }
    let s: &'static str = if d == 0 {
        "0"
    } else if d == 1 {
        "1"
    } else if d == 2 {
        "2"
    } else if d == 3 {
        "3"
    } else if d == 4 {
        "4"
    } else if d == 5 {
        "5"
    } else if d == 6 {
        "6"
    } else if d == 7 {
        "7"
    } else if d == 8 {
        "8"
    } else {
        "9"
    };
    proof {
        assert(s@ =~= seq![digit_char(d as nat)]);
    }
    s
}

/// Append the decimal numeral of `n` to `out`.
fn push_decimal(out: &mut String, n: usize)
    ensures
        final(out)@ == old(out)@ + decimal(n as nat),
    decreases n,
{
    if n >= 10 {
        push_decimal(out, n / 10);
    }
    out.append(digit_str(n % 10));
    proof {
        if n < 10 {
            assert(old(out)@ + decimal(n as nat) =~= final(out)@);
        } else {
            assert(old(out)@ + decimal(n as nat) =~= final(out)@);
        }
    }
}

/// Render a line with its document index prefix, as numbering prints it.
pub fn format_line_with_number(idx: usize, line: &str) -> (r: String)
    ensures
        r@ == numbered_line(idx as nat, line@),
{
    let mut r = String::new();
    push_decimal(&mut r, idx);
    r.append(": ");
    r.append(line);
    proof {
        assert(r@ =~= numbered_line(idx as nat, line@));
    }
    r
}

/// Render a line with the visual match marker appended.
pub fn format_line_with_markers(line: &str) -> (r: String)
    ensures
        r@ == marked_line(line@),
{
    let mut r = String::from_str(line);
    r.append(" <------- XXXXXXXXXXXXX");
    r
}

} // verus!
