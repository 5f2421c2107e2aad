use vstd::prelude::*;
use vstd::string::StringExecFns;

use crate::rank::FrequencyEntry;

verus! {

/// The digit character of one decimal digit.
pub open spec fn digit_char(d: nat) -> char {
    if d == 0 {
        '0'
    } else if d == 1 {
        '1'
    } else if d == 2 {
        '2'
    } else if d == 3 {
        '3'
    } else if d == 4 {
        '4'
    } else if d == 5 {
        '5'
    } else if d == 6 {
        '6'
    } else if d == 7 {
        '7'
    } else if d == 8 {
        '8'
    } else {
        '9'
    }
}

/// The decimal rendering of a number, most significant digit first.
pub open spec fn decimal_of(n: nat) -> Seq<char>
    decreases n,
{
    if n < 10 {
        seq![digit_char(n)]
    } else {
        decimal_of(n / 10).push(digit_char(n % 10))
    }
}

fn digit_str(d: usize) -> (r: &'static str)
    requires
        d < 10,
    ensures
        r@ == seq![digit_char(d as nat)],
{
    proof {
        reveal_strlit("0");
        reveal_strlit("1");
        reveal_strlit("2");
        reveal_strlit("3");
        reveal_strlit("4");
        reveal_strlit("5");
        reveal_strlit("6");
        reveal_strlit("7");
        reveal_strlit("8");
        reveal_strlit("9");
    }
    let r = match d {
        0 => "0",
        1 => "1",
        2 => "2",
        3 => "3",
        4 => "4",
        5 => "5",
        6 => "6",
        7 => "7",
        8 => "8",
        _ => "9",
    };
    proof {
        assert(r@ =~= seq![digit_char(d as nat)]);
    }
    r
}

fn push_decimal(n: usize, out: &mut String)
    ensures
        final (out)@ == old(out)@ + decimal_of(n as nat),
    decreases n,
{
    if n < 10 {
        out.append(digit_str(n));
        assert(final (out)@ =~= old(out)@ + decimal_of(n as nat));
    } else {
        assert(n / 10 < n) by {
            assert(n >= 10);
        }
        push_decimal(n / 10, out);
        out.append(digit_str(n % 10));
        assert(final (out)@ =~= old(out)@ + decimal_of(n as nat));
    }
}

/// One report line holds the token, a single space, and the count in decimal.
pub open spec fn report_line_spec(e: FrequencyEntry) -> Seq<char> {
    e.token@ + seq![' '] + decimal_of(e.count as nat)
}

/// Renders the ranked report: one "<token> <count>" line per entry, in ranked
/// order.
pub fn report_lines(entries: &Vec<FrequencyEntry>) -> (r: Vec<String>)
    ensures
        r@.len() == entries@.len(),
        forall|k: int| 0 <= k < r@.len() ==> #[trigger] r@[k]@ == report_line_spec(entries@[k]),
{
    let mut out: Vec<String> = Vec::new();
    let mut j: usize = 0;
    while j < entries.len()
        invariant
            j <= entries@.len(),
            out@.len() == j,
            forall|k: int| 0 <= k < j ==> #[trigger] out@[k]@ == report_line_spec(entries@[k]),
        decreases entries@.len() - j,
    {
        let mut line = entries[j].token.clone();
        line.append(" ");
        proof {
            reveal_strlit(" ");
            assert(" "@ =~= seq![' ']);
        }
        push_decimal(entries[j].count, &mut line);
        assert(line@ =~= report_line_spec(entries@[j as int]));
        out.push(line);
        j = j + 1;
    }
    out
}

} // verus!
