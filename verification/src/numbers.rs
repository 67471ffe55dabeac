//! Numbers as text.

use vstd::prelude::*;

use crate::text;

verus! {

/// The digit `d`.
pub open spec fn digit(d: int) -> char {
    if d == 0 {
        '0'
    } else if d == 1 {
        '1'
    } else if d == 2 {
        '2'
    } else if d == 3 {
        '3'
    } else if d == 4 {
        '4'
    } else if d == 5 {
        '5'
    } else if d == 6 {
        '6'
    } else if d == 7 {
        '7'
    } else if d == 8 {
        '8'
    } else {
        '9'
    }
}

fn digit_char(d: u128) -> (r: char)
    requires
        d < 10,
    ensures
        r == digit(d as int),
{
    if d == 0 {
        '0'
    } else if d == 1 {
        '1'
    } else if d == 2 {
        '2'
    } else if d == 3 {
        '3'
    } else if d == 4 {
        '4'
    } else if d == 5 {
        '5'
    } else if d == 6 {
        '6'
    } else if d == 7 {
        '7'
    } else if d == 8 {
        '8'
    } else {
        '9'
    }
}

/// A number in decimal.
pub open spec fn digits(n: nat) -> Seq<char>
    decreases n,
{
    if n < 10 {
        seq![digit(n as int)]
    } else {
        digits(n / 10).push(digit((n % 10) as int))
    }
}

/// A number in decimal.
pub fn digits_of(n: u128) -> (r: String)
    ensures
        r@ == digits(n as nat),
    decreases n,
{
    if n < 10 {
        let mut out = String::new();
        text::push_char(&mut out, digit_char(n));
        assert(out@ =~= seq![digit(n as int)]);
        out
    } else {
        let mut out = digits_of(n / 10);
        text::push_char(&mut out, digit_char(n % 10));
        out
    }
}

/// A number in decimal, with a minus sign if it is negative.
pub open spec fn decimal(n: int) -> Seq<char> {
    if n < 0 {
        "-"@ + digits((-n) as nat)
    } else {
        digits(n as nat)
    }
}

/// How far a number is from zero.
pub open spec fn magnitude(n: int) -> int {
    if n < 0 {
        -n
    } else {
        n
    }
}

fn magnitude_of(n: i128) -> (r: u128)
    ensures
        r == magnitude(n as int),
{
    if n >= 0 {
        n as u128
    } else {
        // Negating the successor stays within the range.
        (-(n + 1)) as u128 + 1
    }
}

/// A number in decimal, with a minus sign if it is negative.
pub fn decimal_of(n: i128) -> (r: String)
    ensures
        r@ == decimal(n as int),
{
    let body = digits_of(magnitude_of(n));
    if n < 0 {
        let mut out = "-".to_owned();
        out.append(body.as_str());
        out
    } else {
        body
    }
}

/// `s` with a comma before each group of three, counted from the end.
pub open spec fn grouped(s: Seq<char>) -> Seq<char>
    decreases s.len(),
{
    if s.len() <= 3 {
        s
    } else {
        grouped(s.take(s.len() - 3)) + ","@ + s.skip(s.len() - 3)
    }
}

fn group(s: &str) -> (r: String)
    ensures
        r@ == grouped(s@),
    decreases s@.len(),
{
    let n = s.unicode_len();
    if n <= 3 {
        return s.to_owned();
    }
    let head = text::slice(s, 0, n - 3);
    let tail = text::slice(s, n - 3, n);
    assert(head@ =~= s@.take(n - 3));
    assert(tail@ =~= s@.skip(n - 3));
    let mut out = group(head.as_str());
    out.append(",");
    out.append(tail.as_str());
    out
}

/// `1234567` as `1,234,567`, with a sign when it is negative, or positive and
/// `signed` is set.
pub open spec fn number(n: int, signed: bool) -> Seq<char> {
    let body = grouped(digits(magnitude(n) as nat));
    if signed && n > 0 {
        "+"@ + body
    } else if n < 0 {
        "-"@ + body
    } else {
        body
    }
}

/// `1234567` becomes `1,234,567`, with a sign when `signed` is set.
pub fn number_text(n: i128, signed: bool) -> (r: String)
    ensures
        r@ == number(n as int, signed),
{
    let body = group(digits_of(magnitude_of(n)).as_str());
    if signed && n > 0 {
        let mut out = "+".to_owned();
        out.append(body.as_str());
        out
    } else if n < 0 {
        let mut out = "-".to_owned();
        out.append(body.as_str());
        out
    } else {
        body
    }
}

/// `a / b` rounded to a whole number; a half goes to the even one.
pub open spec fn rounded(a: int, b: int) -> int {
    let q = a / b;
    let r = a % b;
    if 2 * r < b {
        q
    } else if 2 * r > b {
        q + 1
    } else if q % 2 == 0 {
        q
    } else {
        q + 1
    }
}

/// The share of one count in another, as a percentage. There is none when the
/// figure would not mean anything: in a diff, the net change is a denominator
/// that a part of it can exceed.
pub open spec fn share(part: int, whole: int) -> Option<int> {
    if whole > 0 && 0 <= part <= whole {
        Some(rounded(100 * part, whole))
    } else {
        None
    }
}

/// The share of one count in another, as a whole percentage.
pub fn share_of(part: i128, whole: i128) -> (r: Option<u128>)
    requires
        whole < 0x1_0000_0000_0000_0000_0000,
    ensures
        r is Some <==> share(part as int, whole as int) is Some,
        r matches Some(p) ==> share(part as int, whole as int) == Some(p as int),
{
    if whole > 0 && 0 <= part && part <= whole {
        let a: u128 = 100 * (part as u128);
        let b: u128 = whole as u128;
        let q: u128 = a / b;
        let r: u128 = a % b;
        assert(q <= a) by (nonlinear_arith)
            requires
                q == a / b,
                b > 0,
        ;
        if 2 * r < b {
            Some(q)
        } else if 2 * r > b {
            Some(q + 1)
        } else if q % 2 == 0 {
            Some(q)
        } else {
            Some(q + 1)
        }
    } else {
        None
    }
}

/// A share as text, or a dash where there is none.
pub open spec fn share_text(part: int, whole: int) -> Seq<char> {
    match share(part, whole) {
        Some(p) => decimal(p) + "%"@,
        None => "—"@,
    }
}

/// A share as text, or a dash where there is none.
pub fn render_share(part: i128, whole: i128) -> (r: String)
    requires
        whole < 0x1_0000_0000_0000_0000_0000,
    ensures
        r@ == share_text(part as int, whole as int),
{
    match share_of(part, whole) {
        Some(p) => {
            let mut out = digits_of(p);
            out.append("%");
            out
        },
        None => "—".to_owned(),
    }
}

/// A share that means anything is between nothing and everything.
pub proof fn law_shares_are_percentages(part: int, whole: int)
    ensures
        share(part, whole) matches Some(p) ==> 0 <= p <= 100,
        share(part, whole) is None <==> whole <= 0 || part < 0 || part > whole,
        whole > 0 ==> share(0, whole) == Some(0int) && share(whole, whole) == Some(100int),
{
    if whole > 0 && 0 <= part <= whole {
        let a = 100 * part;
        assert(0 <= a / whole <= 100 && (a / whole == 100 ==> a % whole == 0)) by (nonlinear_arith)
            requires
                a == 100 * part,
                0 <= part <= whole,
                whole > 0,
        ;
    }
    if whole > 0 {
        assert(0int / whole == 0 && 0int % whole == 0) by (nonlinear_arith)
            requires
                whole > 0,
        ;
        assert((100 * whole) / whole == 100 && (100 * whole) % whole == 0) by (nonlinear_arith)
            requires
                whole > 0,
        ;
    }
}

/// The number that a row of decimal digits stands for.
pub open spec fn value(s: Seq<char>) -> int
    decreases s.len(),
{
    if s.len() == 0 {
        0
    } else {
        10 * value(s.take(s.len() - 1)) + (s[s.len() - 1] as int - 48)
    }
}

/// The digits of a number can be read back. They are decimal digits, and the
/// first is no zero unless it is the only one.
pub proof fn law_digits_can_be_read_back(n: nat)
    ensures
        value(digits(n)) == n,
        digits(n).len() > 0,
        forall|i: int| 0 <= i < digits(n).len() ==> '0' <= #[trigger] digits(n)[i] <= '9',
        digits(n)[0] == '0' ==> n == 0 && digits(n).len() == 1,
    decreases n,
{
    let s = digits(n);
    if n >= 10 {
        let rest = digits(n / 10);
        law_digits_can_be_read_back(n / 10);
        assert(s.take(s.len() - 1) =~= rest);
        assert(s[s.len() - 1] == digit((n % 10) as int));
        assert(digit((n % 10) as int) as int - 48 == n % 10);
        assert(n == 10 * (n / 10) + n % 10);
        assert(s[0] == rest[0]);
        assert forall|i: int| 0 <= i < s.len() implies '0' <= #[trigger] s[i] <= '9' by {
            if i < rest.len() {
                assert(s[i] == rest[i]);
            }
        }
        if rest[0] == '0' {
            assert(n / 10 == 0);
        }
    } else {
        assert(s.take(0) =~= Seq::empty());
        assert(value(s.take(0)) == 0);
        assert(digit(n as int) as int - 48 == n);
        assert(s[0] == digit(n as int));
    }
}

/// A number is its digits, with a minus sign in front of a negative one.
pub proof fn law_only_negative_numbers_have_a_sign(n: nat)
    ensures
        value(decimal(n as int)) == n,
        '0' <= decimal(n as int)[0] <= '9',
        n > 0 ==> decimal(-(n as int)) == "-"@ + decimal(n as int),
{
    law_digits_can_be_read_back(n);
}

/// Counted from the end, every fourth character is a comma, and the others are
/// the digits in their order. No comma stands in front.
pub proof fn law_commas_part_groups_of_three(s: Seq<char>, i: int)
    requires
        0 <= i < grouped(s).len(),
    ensures
        ({
            let g = grouped(s);
            &&& i % 4 == 3 ==> g[g.len() - 1 - i] == ','
            &&& i % 4 != 3 ==> 0 <= s.len() - 1 - (i - i / 4) < s.len() && g[g.len() - 1 - i]
                == s[s.len() - 1 - (i - i / 4)]
        }),
        grouped(s).len() == s.len() + (s.len() - 1) / 3,
    decreases s.len(),
{
    reveal_strlit(",");
    let g = grouped(s);
    if s.len() > 3 {
        let head = s.take(s.len() - 3);
        let tail = s.skip(s.len() - 3);
        let h = grouped(head);
        assert(g =~= h + ","@ + tail);
        lemma_grouped_len(head);
        if i < 3 {
            assert(g[g.len() - 1 - i] == tail[2 - i]);
        } else if i == 3 {
            assert(g[g.len() - 4] == ',');
        } else {
            law_commas_part_groups_of_three(head, i - 4);
            assert(g[g.len() - 1 - i] == h[h.len() - 1 - (i - 4)]);
            assert((i - 4) % 4 == i % 4);
            assert((i - 4) / 4 == i / 4 - 1);
        }
    }
}

proof fn lemma_grouped_len(s: Seq<char>)
    requires
        s.len() > 0,
    ensures
        grouped(s).len() == s.len() + (s.len() - 1) / 3,
    decreases s.len(),
{
    reveal_strlit(",");
    if s.len() > 3 {
        lemma_grouped_len(s.take(s.len() - 3));
    }
}

/// A number is written with commas. Losses have a minus sign, gains a plus sign
/// where signs are asked for, and nothing has neither.
pub proof fn law_signs_tell_gains_from_losses(n: nat, signed: bool)
    requires
        n > 0,
    ensures
        number(n as int, false) == grouped(digits(n)),
        number(n as int, true) == "+"@ + number(n as int, false),
        number(-(n as int), signed) == "-"@ + number(n as int, false),
        number(0, signed) == "0"@,
{
    reveal_strlit("0");
    assert(number(0, signed) =~= "0"@);
}

/// A share is the whole percentage closest to the exact one; of two that are
/// equally close it is the even one.
pub proof fn law_shares_are_the_closest_percentages(part: int, whole: int)
    requires
        0 <= part <= whole,
        whole > 0,
    ensures
        share(part, whole) matches Some(p) && {
            &&& -whole <= 2 * (p * whole - 100 * part) <= whole
            &&& 2 * (p * whole - 100 * part) == whole || 2 * (p * whole - 100 * part) == -whole
                ==> p % 2 == 0
        },
        share_text(part, whole) == digits(share(part, whole)->0 as nat) + "%"@,
{
    let a = 100 * part;
    let q = a / whole;
    let r = a % whole;
    assert(a == q * whole + r && 0 <= r < whole) by (nonlinear_arith)
        requires
            q == a / whole,
            r == a % whole,
            whole > 0,
    ;
    assert((q + 1) * whole == q * whole + whole) by (nonlinear_arith);
    law_shares_are_percentages(part, whole);
}

/// Where a share means nothing, a dash stands for it.
pub proof fn law_a_dash_stands_for_no_share(part: int, whole: int)
    requires
        whole <= 0 || part < 0 || part > whole,
    ensures
        share_text(part, whole) == "—"@,
{
}

} // verus!
