//! Display figures: rounded percentages, labels, seconds and bar widths.

use vstd::prelude::*;
use vstd::string::*;
use crate::session::Snapshot;
use crate::stats::TimeSummary;

verus! {

/// The columns a bar line spends besides the bar and its label: the heading
/// and the space before the label.
pub const BAR_MARGIN: usize = 11;

/// `num / den` rounded to the nearest integer, halves upward.
pub open spec fn rounded_ratio(num: int, den: int) -> int {
    num / den + if 2 * (num % den) >= den {
        1int
    } else {
        0int
    }
}

/// The share `part / whole` as a rounded percentage, zero for an empty whole.
pub open spec fn percent_of(part: int, whole: int) -> int {
    if whole == 0 {
        0
    } else {
        rounded_ratio(100 * part, whole)
    }
}

/// The character of a decimal digit.
pub open spec fn digit_char(d: nat) -> char {
    if d == 0 {
        '0'
    } else if d == 1 {
        '1'
    } else if d == 2 {
        '2'
    } else if d == 3 {
        '3'
    } else if d == 4 {
        '4'
    } else if d == 5 {
        '5'
    } else if d == 6 {
        '6'
    } else if d == 7 {
        '7'
    } else if d == 8 {
        '8'
    } else {
        '9'
    }
}

/// The decimal notation of a natural number, without leading zeros.
pub open spec fn decimal(n: nat) -> Seq<char>
    decreases n,
{
    if n < 10 {
        seq![digit_char(n)]
    } else {
        decimal(n / 10).push(digit_char(n % 10))
    }
}

/// The label `part/whole (p%)`.
pub open spec fn ratio_label(part: nat, whole: nat) -> Seq<char> {
    decimal(part) + seq!['/'] + decimal(whole) + seq![' ', '('] + decimal(percent_of(part as int, whole as int) as nat)
        + seq!['%', ')']
}

/// A count of hundredths of a second written as seconds with two decimals.
pub open spec fn seconds_label(centis: nat) -> Seq<char> {
    decimal(centis / 100) + seq!['.', digit_char((centis % 100) / 10), digit_char(centis % 10)]
}

/// The width of the bar for a terminal of `cols` columns and two labels:
/// what is left after the margin and the longer label, and zero where
/// nothing is left.
pub open spec fn bar_budget(cols: nat, label_a: nat, label_b: nat) -> nat {
    let used = BAR_MARGIN + if label_a > label_b {
        label_a
    } else {
        label_b
    };
    if cols > used {
        (cols - used) as nat
    } else {
        0
    }
}

/// The filled cells of a bar of `budget` cells showing `part / whole`:
/// the rounded share of the budget, at most the budget, none for an empty
/// whole.
pub open spec fn filled_cells(budget: nat, part: nat, whole: nat) -> nat {
    if whole == 0 {
        0
    } else {
        let f = rounded_ratio((part * budget) as int, whole as int);
        if f > budget {
            budget
        } else {
            f as nat
        }
    }
}

fn push_digit(s: &mut String, d: u128)
    requires
        d < 10,
    ensures
        final(s)@ == old(s)@.push(digit_char(d as nat)),
{
    let piece = if d == 0 {
        proof { reveal_strlit("0"); }
        "0"
    } else if d == 1 {
        proof { reveal_strlit("1"); }
        "1"
    } else if d == 2 {
        proof { reveal_strlit("2"); }
        "2"
    } else if d == 3 {
        proof { reveal_strlit("3"); }
        "3"
    } else if d == 4 {
        proof { reveal_strlit("4"); }
        "4"
    } else if d == 5 {
        proof { reveal_strlit("5"); }
        "5"
    } else if d == 6 {
        proof { reveal_strlit("6"); }
        "6"
    } else if d == 7 {
        proof { reveal_strlit("7"); }
        "7"
    } else if d == 8 {
        proof { reveal_strlit("8"); }
        "8"
    } else {
        proof { reveal_strlit("9"); }
        "9"
    };
    assert(piece@ =~= seq![digit_char(d as nat)]);
    s.append(piece);
}

fn append_decimal(s: &mut String, n: u128)
    ensures
        final(s)@ == old(s)@ + decimal(n as nat),
    decreases n,
{
    if n < 10 {
        push_digit(s, n);
        assert(final(s)@ =~= old(s)@ + decimal(n as nat));
    } else {
        append_decimal(s, n / 10);
        push_digit(s, n % 10);
        assert(final(s)@ =~= old(s)@ + decimal(n as nat));
    }
}

/// The decimal notation of `n`.
pub fn decimal_text(n: u128) -> (r: String)
    ensures
        r@ == decimal(n as nat),
{
    let mut s = String::new();
    append_decimal(&mut s, n);
    assert(s@ =~= decimal(n as nat));
    s
}

/// `num / den` rounded to the nearest integer, halves upward.
pub fn rounded_div(num: u128, den: u128) -> (r: u128)
    requires
        0 < den <= u128::MAX / 2,
    ensures
        r == rounded_ratio(num as int, den as int),
{
    let q = num / den;
    let rem = num % den;
    proof {
        assert(q <= num);
        if q == u128::MAX {
            assert(den == 1) by (nonlinear_arith)
                requires
                    q == num / den,
                    num <= u128::MAX,
                    q == u128::MAX,
                    den >= 1,
            ;
        }
    }
    if 2 * rem >= den {
        q + 1
    } else {
        q
    }
}

/// The share `part / whole` as a rounded percentage, zero for an empty whole.
pub fn percent(part: u64, whole: u64) -> (r: u128)
    ensures
        r == percent_of(part as int, whole as int),
{
    if whole == 0 {
        0
    } else {
        rounded_div(100 * (part as u128), whole as u128)
    }
}

fn ratio_text(part: u64, whole: u64) -> (r: String)
    ensures
        r@ == ratio_label(part as nat, whole as nat),
{
    let mut s = String::new();
    append_decimal(&mut s, part as u128);
    proof { reveal_strlit("/"); }
    s.append("/");
    append_decimal(&mut s, whole as u128);
    proof { reveal_strlit(" ("); }
    s.append(" (");
    let p = percent(part, whole);
    append_decimal(&mut s, p);
    proof { reveal_strlit("%)"); }
    s.append("%)");
    assert(s@ =~= ratio_label(part as nat, whole as nat));
    s
}

/// The progress label: answers given out of the questions in the pool, with
/// the rounded percentage.
pub fn completion_text(snapshot: &Snapshot) -> (r: String)
    ensures
        r@ == ratio_label(snapshot.total_answered as nat, snapshot.total_in_pool as nat),
{
    ratio_text(snapshot.total_answered, snapshot.total_in_pool as u64)
}

/// The accuracy label: correct answers out of answers given, with the
/// rounded percentage; `0/0 (0%)` before the first answer.
pub fn accuracy_text(snapshot: &Snapshot) -> (r: String)
    ensures
        snapshot.total_answered == 0 ==> r@ == seq!['0', '/', '0', ' ', '(', '0', '%', ')'],
        snapshot.total_answered > 0 ==> r@ == ratio_label(
            snapshot.correct_count as nat,
            snapshot.total_answered as nat,
        ),
{
    if snapshot.total_answered == 0 {
        proof { reveal_strlit("0/0 (0%)"); }
        let s = String::from_str("0/0 (0%)");
        assert(s@ =~= seq!['0', '/', '0', ' ', '(', '0', '%', ')']);
        s
    } else {
        ratio_text(snapshot.correct_count, snapshot.total_answered)
    }
}

fn seconds_text(centis: u128) -> (r: String)
    ensures
        r@ == seconds_label(centis as nat),
{
    let mut s = String::new();
    append_decimal(&mut s, centis / 100);
    proof { reveal_strlit("."); }
    s.append(".");
    push_digit(&mut s, (centis % 100) / 10);
    push_digit(&mut s, centis % 10);
    assert(s@ =~= seconds_label(centis as nat));
    s
}

/// The four latency figures as seconds with two decimals, each rounded to
/// the nearest hundredth: minimum, median, mean and maximum.
pub fn time_texts(t: &TimeSummary) -> (r: (String, String, String, String))
    requires
        t.count > 0,
    ensures
        r.0@ == seconds_label(rounded_ratio(t.min_ms as int, 10) as nat),
        r.1@ == seconds_label(rounded_ratio(t.median_doubled_ms as int, 20) as nat),
        r.2@ == seconds_label(rounded_ratio(t.total_ms as int, 10 * t.count) as nat),
        r.3@ == seconds_label(rounded_ratio(t.max_ms as int, 10) as nat),
{
    let lo = seconds_text(rounded_div(t.min_ms as u128, 10));
    let mid = seconds_text(rounded_div(t.median_doubled_ms, 20));
    let mean = seconds_text(rounded_div(t.total_ms, 10 * (t.count as u128)));
    let hi = seconds_text(rounded_div(t.max_ms as u128, 10));
    (lo, mid, mean, hi)
}

/// Filled and empty cells of a bar showing `part / whole` on a terminal of
/// `cols` columns beside labels of the two widths given.
pub fn bar_split(cols: usize, label_a: usize, label_b: usize, part: u64, whole: u64) -> (r: (usize, usize))
    ensures
        r.0 == filled_cells(bar_budget(cols as nat, label_a as nat, label_b as nat), part as nat, whole as nat),
        r.0 + r.1 == bar_budget(cols as nat, label_a as nat, label_b as nat),
{
    let longer = if label_a > label_b {
        label_a
    } else {
        label_b
    };
    let budget: usize = if longer < cols && cols - longer > BAR_MARGIN {
        cols - longer - BAR_MARGIN
    } else {
        0
    };
    if whole == 0 {
        return (0, budget);
    }
    assert((part as u128) * (budget as u128) <= u128::MAX) by (nonlinear_arith)
        requires
            part <= u64::MAX,
            budget <= usize::MAX,
            usize::MAX <= u64::MAX,
    ;
    let scaled = (part as u128) * (budget as u128);
    let f = rounded_div(scaled, whole as u128);
    let filled: usize = if f > budget as u128 {
        budget
    } else {
        f as usize
    };
    (filled, budget - filled)
}

/// Leading spaces that centre a text of `width` columns on a terminal of
/// `cols` columns; none where it does not fit.
pub fn center_offset(width: usize, cols: usize) -> (r: usize)
    ensures
        r == if width > cols {
            0
        } else {
            (cols - width) as nat / 2
        },
{
    if width > cols {
        0
    } else {
        (cols - width) / 2
    }
}

} // verus!
