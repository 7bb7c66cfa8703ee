//! Numbers and progress reports as text.
use vstd::prelude::*;
use vstd::string::{StrSliceExecFns, StringExecFns};

verus! {

/// The character for a decimal digit.
pub open spec fn digit(d: int) -> char {
    (48 + d) as char
}

/// A number in decimal digits.
pub open spec fn decimal(n: nat) -> Seq<char>
    decreases n,
{
    if n < 10 {
        seq![digit(n as int)]
    } else {
        decimal(n / 10).push(digit((n % 10) as int))
    }
}

/// An integer in decimal digits, with a minus sign where it is negative.
pub open spec fn signed_decimal(i: int) -> Seq<char> {
    if i < 0 {
        seq!['-'] + decimal((-i) as nat)
    } else {
        decimal(i as nat)
    }
}

fn digit_text(d: u64) -> (r: &'static str)
    requires
        d < 10,
    ensures
        r@ == seq![digit(d as int)],
{
    proof {
        reveal_strlit("0");
        reveal_strlit("1");
        reveal_strlit("2");
        reveal_strlit("3");
        reveal_strlit("4");
        reveal_strlit("5");
        reveal_strlit("6");
        reveal_strlit("7");
        reveal_strlit("8");
        reveal_strlit("9");
    }
    let r = match d {
        0 => "0",
        1 => "1",
        2 => "2",
        3 => "3",
        4 => "4",
        5 => "5",
        6 => "6",
        7 => "7",
        8 => "8",
        _ => "9",
    };
    assert(r@ =~= seq![digit(d as int)]);
    r
}

/// Writes a number in decimal digits.
pub fn decimal_text(n: u64) -> (r: String)
    ensures
        r@ == decimal(n as nat),
    decreases n,
{
    if n < 10 {
        digit_text(n).to_owned()
    } else {
        let mut text = decimal_text(n / 10);
        text.append(digit_text(n % 10));
        assert(text@ =~= decimal(n as nat));
        text
    }
}

/// Writes an integer in decimal digits.
pub fn signed_decimal_text(i: i32) -> (r: String)
    ensures
        r@ == signed_decimal(i as int),
{
    if i < 0 {
        let mut text = "-".to_owned();
        let digits = decimal_text((-(i as i64)) as u64);
        text.append(digits.as_str());
        proof {
            reveal_strlit("-");
            assert(text@ =~= signed_decimal(i as int));
        }
        text
    } else {
        decimal_text(i as u64)
    }
}

/// `text` with as many spaces before it as it takes to reach `width` characters.
pub open spec fn right_aligned(text: Seq<char>, width: nat) -> Seq<char> {
    if text.len() < width {
        Seq::new((width - text.len()) as nat, |i: int| ' ') + text
    } else {
        text
    }
}

/// The report that picture number `index` of `total`, counted from zero, is done.
pub open spec fn progress_report(index: nat, total: nat, name: Seq<char>) -> Seq<char> {
    "["@ + right_aligned(decimal(index + 1), decimal(total).len()) + "/"@ + decimal(total) + "] "@
        + name
}

/// Reports that picture number `index` of `total`, counted from zero, is done.
pub fn progress_line(index: usize, total: usize, name: &str) -> (r: String)
    requires
        index < total,
    ensures
        r@ == progress_report(index as nat, total as nat, name@),
{
    let position = decimal_text(index as u64 + 1);
    let all = decimal_text(total as u64);
    let width: usize = all.as_str().unicode_len();
    let mut len: usize = position.as_str().unicode_len();
    let mut line = "[".to_owned();
    let ghost start = len;
    while len < width
        invariant
            start <= len,
            len <= width || len == start,
            line@ =~= "["@ + Seq::new((len - start) as nat, |i: int| ' '),
        decreases width - len,
    {
        line.append(" ");
        proof {
            reveal_strlit(" ");
        }
        len = len + 1;
    }
    line.append(position.as_str());
    line.append("/");
    line.append(all.as_str());
    line.append("] ");
    line.append(name);
    assert(line@ =~= progress_report(index as nat, total as nat, name@));
    line
}

/// A number is written with the digits of its tenth before its last digit, and a number below
/// ten is one digit, counted from the character zero.
pub proof fn law_decimal_digits(n: nat, d: nat)
    requires
        d < 10,
    ensures
        decimal(d).len() == 1,
        decimal(d)[0] as int == '0' as int + d,
        n > 0 ==> decimal(10 * n + d) == decimal(n) + decimal(d),
{
    if n > 0 {
        assert((10 * n + d) / 10 == n && (10 * n + d) % 10 == d);
        assert(decimal(10 * n + d) =~= decimal(n) + decimal(d));
    }
}

/// An integer below zero is written as a minus sign and the digits of its distance from zero,
/// and any other as its digits alone.
pub proof fn law_minus_sign(n: nat)
    ensures
        signed_decimal(n as int) == decimal(n),
        n > 0 ==> signed_decimal(-n) == seq!['-'] + decimal(n),
{
}

/// Different numbers are written differently.
pub proof fn law_decimal_is_unique(a: nat, b: nat)
    requires
        decimal(a) == decimal(b),
    ensures
        a == b,
    decreases a,
{
    let (x, y) = (decimal(a), decimal(b));
    lemma_decimal_not_empty(a / 10);
    lemma_decimal_not_empty(b / 10);
    assert(x.last() as int == 48 + a % 10);
    assert(y.last() as int == 48 + b % 10);
    if a >= 10 && b >= 10 {
        assert(x.drop_last() =~= decimal(a / 10));
        assert(y.drop_last() =~= decimal(b / 10));
        law_decimal_is_unique(a / 10, b / 10);
    }
}

proof fn lemma_decimal_not_empty(n: nat)
    ensures
        decimal(n).len() > 0,
{
}

/// A report is the picture's number, counted from one and set flush right in the width of the
/// total, the total, and the name.
pub proof fn law_report_layout(index: nat, total: nat, name: Seq<char>)
    requires
        index < total,
    ensures
        ({
            let (position, all) = (decimal(index + 1), decimal(total));
            let line = progress_report(index, total, name);
            let w = all.len() as int;
            let blank = w - position.len();
            &&& blank >= 0
            &&& line.len() == 2 * w + 4 + name.len()
            &&& line[0] == '['
            &&& forall|i: int| 1 <= i < 1 + blank ==> line[i] == ' '
            &&& line.subrange(1 + blank, 1 + w) == position
            &&& line[1 + w] == '/'
            &&& line.subrange(2 + w, 2 + 2 * w) == all
            &&& line[2 + 2 * w] == ']'
            &&& line[3 + 2 * w] == ' '
            &&& line.skip(4 + 2 * w) == name
        }),
{
    lemma_decimal_grows(index + 1, total);
    reveal_strlit("[");
    reveal_strlit("/");
    reveal_strlit("] ");
    let (position, all) = (decimal(index + 1), decimal(total));
    let line = progress_report(index, total, name);
    let w = all.len() as int;
    let blank = w - position.len();
    assert(line.subrange(1 + blank, 1 + w) =~= position);
    assert(line.subrange(2 + w, 2 + 2 * w) =~= all);
    assert(line.skip(4 + 2 * w) =~= name);
}

proof fn lemma_decimal_grows(a: nat, b: nat)
    requires
        a <= b,
    ensures
        decimal(a).len() <= decimal(b).len(),
    decreases b,
{
    if a >= 10 {
        lemma_decimal_grows(a / 10, b / 10);
    } else if b >= 10 {
        lemma_decimal_grows(a / 10, b / 10);
    }
}

/// The numbers in the reports of a run stand in one column.
pub proof fn law_reports_are_aligned(index: nat, total: nat)
    requires
        index < total,
    ensures
        right_aligned(decimal(index + 1), decimal(total).len()).len() == decimal(total).len(),
{
    lemma_decimal_grows(index + 1, total);
}

} // verus!
