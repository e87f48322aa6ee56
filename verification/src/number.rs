//! Numbers spelled out in a request.
//!
//! A switch may be sent as a number, and counts as on when the number is not
//! zero. Whether it is zero is asked of a single-precision number: a value
//! that is nearer to zero than to the smallest number the format has, or
//! half way between the two, is zero. That is decided here on the digits as
//! they were written, with nothing rounded on the way.

use crate::text;
use crate::text::Class;
use vstd::arithmetic::power::*;
use vstd::prelude::*;

verus! {

/// The text behind its sign, if it has one.
pub open spec fn unsigned(s: Seq<char>) -> Seq<char> {
    if s.len() > 0 && (s[0] == '+' || s[0] == '-') {
        s.skip(1)
    } else {
        s
    }
}

/// Whether the text is one or more digits and nothing else.
pub open spec fn all_digits(s: Seq<char>) -> bool {
    s.len() > 0 && text::leading(s, Class::Digit) == s.len()
}

/// The number that a digit stands for.
pub open spec fn digit(c: char) -> nat {
    (c as int - '0' as int) as nat
}

/// The number that a run of digits stands for.
pub open spec fn decimal(s: Seq<char>) -> nat
    decreases s.len(),
{
    if s.len() == 0 {
        0
    } else {
        10 * decimal(s.drop_last()) + digit(s.last())
    }
}

/// What stands behind a number's digits: nothing, or `e` and a whole number.
pub open spec fn exponent(s: Seq<char>) -> Option<int> {
    if s.len() == 0 {
        Some(0)
    } else if s[0] == 'e' && all_digits(unsigned(s.skip(1))) {
        let size = decimal(unsigned(s.skip(1))) as int;
        Some(
            if s[1] == '-' {
                -size
            } else {
                size
            },
        )
    } else {
        None
    }
}

/// A number as it was written: `digits` times ten to the `exponent`.
#[verifier::ext_equal]
pub struct Decimal {
    pub digits: Seq<char>,
    pub exponent: int,
}

/// The number that a text spells: digits, which may have a point among them,
/// before them or behind them, and then perhaps an exponent.
pub open spec fn spelled(s: Seq<char>) -> Option<Decimal> {
    let whole = text::leading(s, Class::Digit) as int;
    let after = s.skip(whole);
    let point = after.len() > 0 && after[0] == '.';
    let tail = if point {
        after.skip(1)
    } else {
        after
    };
    let part = if point {
        text::leading(tail, Class::Digit) as int
    } else {
        0
    };
    if whole + part == 0 {
        None
    } else {
        match exponent(tail.skip(part)) {
            Some(e) => Some(
                Decimal { digits: s.take(whole) + tail.take(part), exponent: e - part },
            ),
            None => None,
        }
    }
}

/// Whether a number is still more than zero in single precision: it is more
/// than two to the minus 150, half the smallest positive number there.
pub open spec fn above_zero(d: Decimal) -> bool {
    let m = decimal(d.digits) as int;
    if d.exponent >= 0 {
        m > 0
    } else {
        m * pow(2, 150) > pow(10, (-d.exponent) as nat)
    }
}

/// The index that a text spells: digits, perhaps behind a plus, that stand
/// for no more than a `usize` holds.
pub open spec fn index(s: Seq<char>) -> Option<usize> {
    let u = if s.len() > 0 && s[0] == '+' {
        s.skip(1)
    } else {
        s
    };
    if all_digits(u) && decimal(u) <= usize::MAX {
        Some(decimal(u) as usize)
    } else {
        None
    }
}

/// What a number in lower case says of a switch: on when it is not zero,
/// nothing when the text is no number. Infinity and what is not a number at
/// all are not zero.
pub open spec fn not_zero(s: Seq<char>) -> Option<bool> {
    let u = unsigned(s);
    if u == "inf"@ || u == "infinity"@ || u == "nan"@ {
        Some(true)
    } else {
        match spelled(u) {
            Some(d) => Some(above_zero(d)),
            None => None,
        }
    }
}

/// Two to the 105.
const SCALE: u128 = 40564819207303340847894502572032;

/// Five to the 45. Ten to the -45, times this, over [`SCALE`], is two to the
/// -150.
const MARK: u128 = 28421709430404007434844970703125;

/// How large a number may grow before it is no longer kept exactly. No
/// index and no number of digits comes near it.
const FAR: i128 = 1_000_000_000_000_000_000_000_000_000_000;

/// A number kept exactly, or too far from zero for that on the same side.
spec fn kept(found: int, meant: int) -> bool {
    ||| found == meant
    ||| found >= FAR && meant >= FAR
    ||| found <= -FAR && meant <= -FAR
}

/// A power whose exponent is a sum.
proof fn lemma_power_step(base: int, e: nat, f: nat, x: int, y: int)
    requires
        pow(base, e) == x,
        pow(base, f) == y,
    ensures
        pow(base, e + f) == x * y,
{
    lemma_pow_adds(base, e, f);
}

/// The powers that the threshold is made of.
proof fn lemma_powers()
    ensures
        pow(2, 150) == SCALE * 35184372088832,
        pow(10, 45) == MARK * 35184372088832,
        pow(2, 150) > pow(10, 45),
        pow(2, 150) < pow(10, 46),
{
    assert(pow(2, 10) == 1024) by {
        reveal(pow);
        reveal_with_fuel(pow, 11);
    }
    lemma_power_step(2, 10, 10, 1024, 1024);
    lemma_power_step(2, 20, 10, 1048576, 1024);
    lemma_power_step(2, 30, 20, 1073741824, 1048576);
    lemma_power_step(2, 50, 50, 1125899906842624, 1125899906842624);
    lemma_power_step(2, 100, 50, 1267650600228229401496703205376, 1125899906842624);
    assert(pow(10, 9) == 1_000_000_000) by {
        reveal(pow);
        reveal_with_fuel(pow, 10);
    }
    lemma_power_step(10, 9, 9, 1000000000, 1000000000);
    lemma_power_step(10, 18, 9, 1000000000000000000, 1000000000);
    lemma_power_step(10, 27, 18, 1000000000000000000000000000, 1000000000000000000);
    lemma_pow1(10);
    lemma_power_step(10, 45, 1, 1000000000000000000000000000000000000000000000int, 10);
}

/// Every character is a digit.
spec fn digits_only(s: Seq<char>) -> bool {
    forall|i: int| 0 <= i < s.len() ==> Class::Digit.has(#[trigger] s[i])
}

/// The first digit counts for as many tens as there are digits behind it.
proof fn lemma_first_digit(s: Seq<char>)
    requires
        s.len() > 0,
    ensures
        decimal(s) == digit(s[0]) * pow(10, (s.len() - 1) as nat) + decimal(s.drop_first()),
    decreases s.len(),
{
    let rest = s.drop_first();
    if s.len() == 1 {
        lemma_pow0(10);
        assert(decimal(s.drop_last()) == 0);
    } else {
        let init = s.drop_last();
        lemma_first_digit(init);
        assert(init.drop_first() =~= rest.drop_last());
        assert(rest.last() == s.last());
        let d = digit(s[0]) as int;
        let q = pow(10, (s.len() - 2) as nat);
        assert(pow(10, (s.len() - 1) as nat) == 10 * q) by {
            reveal(pow);
        }
        assert(10 * (d * q) == d * (10 * q)) by (nonlinear_arith);
    }
}

/// Digits are worth less than a one with as many noughts.
proof fn lemma_decimal_bound(s: Seq<char>)
    requires
        digits_only(s),
    ensures
        0 <= decimal(s) < pow(10, s.len()),
    decreases s.len(),
{
    if s.len() == 0 {
        lemma_pow0(10);
    } else {
        let init = s.drop_last();
        assert forall|i: int| 0 <= i < init.len() implies Class::Digit.has(#[trigger] init[i]) by {
            assert(init[i] == s[i]);
        }
        lemma_decimal_bound(init);
        assert(Class::Digit.has(s[s.len() - 1]));
        assert(pow(10, s.len()) == 10 * pow(10, init.len())) by {
            reveal(pow);
        }
    }
}

/// A nought in front changes nothing.
proof fn lemma_nought_in_front(s: Seq<char>)
    requires
        s.len() > 0,
        s[0] == '0',
    ensures
        decimal(s) == decimal(s.drop_first()),
{
    lemma_first_digit(s);
    let q = pow(10, (s.len() - 1) as nat);
    assert(digit(s[0]) * q == 0) by (nonlinear_arith)
        requires
            digit(s[0]) == 0,
    ;
}

/// Where the first digit that is not nought stands decides whether a number
/// is above zero, but for one place, where the digits have to be looked at.
proof fn lemma_above_zero(d: Decimal)
    requires
        digits_only(d.digits),
        d.digits.len() > 0,
        d.digits[0] != '0',
    ensures
        d.digits.len() + d.exponent >= -44 ==> above_zero(d),
        d.digits.len() + d.exponent <= -46 ==> !above_zero(d),
        d.digits.len() + d.exponent == -45 ==> above_zero(d) == (decimal(d.digits) * SCALE > MARK
            * pow(10, d.digits.len())),
{
    let s = d.digits;
    let n = s.len();
    let m = decimal(s) as int;
    let two = pow(2, 150);
    lemma_powers();
    lemma_first_digit(s);
    lemma_decimal_bound(s);
    assert forall|i: int| 0 <= i < s.drop_first().len() implies Class::Digit.has(
        #[trigger] s.drop_first()[i],
    ) by {
        assert(s.drop_first()[i] == s[i + 1]);
    }
    lemma_decimal_bound(s.drop_first());
    assert(Class::Digit.has(s[0]));
    let q = pow(10, (n - 1) as nat);
    lemma_pow_positive(10, (n - 1) as nat);
    assert(m >= q) by (nonlinear_arith)
        requires
            m >= digit(s[0]) * q,
            digit(s[0]) >= 1,
            q > 0,
    ;
    if d.exponent < 0 {
        let j = (-d.exponent) as nat;
        if n + d.exponent >= -44 {
            if j >= 45 {
                let r = pow(10, (j - 45) as nat);
                lemma_pow_positive(10, (j - 45) as nat);
                lemma_pow_increases(10, (j - 45) as nat, (n - 1) as nat);
                lemma_pow_adds(10, (j - 45) as nat, 45);
                assert(m * two > r * pow(10, 45)) by (nonlinear_arith)
                    requires
                        m >= r,
                        r > 0,
                        two > pow(10, 45),
                        pow(10, 45) >= 0,
                ;
            } else {
                lemma_pow_increases(10, j, 45);
                assert(m * two >= two) by (nonlinear_arith)
                    requires
                        m >= 1,
                        two > 0,
                ;
            }
        } else if n + d.exponent <= -46 {
            let r = pow(10, (j - 46) as nat);
            lemma_pow_positive(10, (j - 46) as nat);
            lemma_pow_increases(10, n, (j - 46) as nat);
            lemma_pow_adds(10, (j - 46) as nat, 46);
            assert(m * two <= r * pow(10, 46)) by (nonlinear_arith)
                requires
                    0 <= m <= r,
                    0 <= two <= pow(10, 46),
            ;
        } else {
            assert(j == n + 45);
            let t = pow(10, n);
            lemma_pow_adds(10, n, 45);
            assert((m * two > t * pow(10, 45)) == (m * SCALE > MARK * t)) by (nonlinear_arith)
                requires
                    two == SCALE * 35184372088832,
                    pow(10, 45) == MARK * 35184372088832,
            ;
        }
    }
}

/// One step of a long comparison: a number of which `d` is the first digit
/// and `v` the rest, against one of which `t` is the first digit and `r` the
/// rest.
proof fn lemma_compare_digit(d: int, v: int, t: int, r: int, q: int, scale: int)
    requires
        0 <= v < q,
        0 <= r < scale,
    ensures
        d > t ==> (d * q + v) * scale > (t * scale + r) * q,
        d < t ==> (d * q + v) * scale <= (t * scale + r) * q,
        d == t ==> ((d * q + v) * scale > (t * scale + r) * q) == (v * scale > r * q),
{
    assert((d * q + v) * scale - (t * scale + r) * q == (d - t) * (q * scale) + v * scale - r * q)
        by (nonlinear_arith);
    assert(0 <= v * scale < q * scale) by (nonlinear_arith)
        requires
            0 <= v < q,
            0 < scale,
    ;
    assert(0 <= r * q < q * scale) by (nonlinear_arith)
        requires
            0 <= r < scale,
            0 < q,
    ;
    if d > t {
        assert((d - t) * (q * scale) >= q * scale) by (nonlinear_arith)
            requires
                d - t >= 1,
                q * scale >= 0,
        ;
    } else if d < t {
        assert((d - t) * (q * scale) <= -(q * scale)) by (nonlinear_arith)
            requires
                d - t <= -1,
                q * scale >= 0,
        ;
    } else {
        assert((d - t) * (q * scale) == 0) by (nonlinear_arith)
            requires
                d == t,
        ;
    }
}

/// Whether the digits from `from` on, behind a point, are more than
/// [`MARK`] over [`SCALE`]. The digits of that fraction are worked out one
/// at a time, by long division, and compared as they come.
fn above_mark(digits: &Vec<char>, from: usize) -> (res: bool)
    requires
        digits_only(digits@),
        from <= digits@.len(),
    ensures
        res == (decimal(digits@.skip(from as int)) * SCALE > MARK * pow(
            10,
            (digits@.len() - from) as nat,
        )),
{
    let ghost goal = decimal(digits@.skip(from as int)) * SCALE > MARK * pow(
        10,
        (digits@.len() - from) as nat,
    );
    let mut i: usize = from;
    let mut rem: u128 = MARK;
    while i < digits.len()
        invariant
            i <= digits@.len(),
            digits_only(digits@),
            0 <= rem < SCALE,
            goal == (decimal(digits@.skip(from as int)) * SCALE > MARK * pow(
                10,
                (digits@.len() - from) as nat,
            )),
            goal == (decimal(digits@.skip(i as int)) * SCALE > rem * pow(
                10,
                (digits@.len() - i) as nat,
            )),
        decreases digits@.len() - i,
    {
        let c: char = digits[i];
        assert(Class::Digit.has(digits@[i as int]));
        let d: u128 = (c as u32 - '0' as u32) as u128;
        let t: u128 = rem * 10 / SCALE;
        let next: u128 = rem * 10 % SCALE;
        proof {
            let s = digits@.skip(i as int);
            let rest = digits@.skip(i + 1);
            assert(s.drop_first() =~= rest);
            lemma_first_digit(s);
            assert forall|k: int| 0 <= k < rest.len() implies Class::Digit.has(
                #[trigger] rest[k],
            ) by {
                assert(rest[k] == digits@[i + 1 + k]);
            }
            lemma_decimal_bound(rest);
            let q = pow(10, rest.len());
            lemma_compare_digit(d as int, decimal(rest) as int, t as int, next as int, q, SCALE as int);
            assert(pow(10, s.len()) == 10 * q) by {
                reveal(pow);
            }
            assert(rem * (10 * q) == (rem * 10) * q) by (nonlinear_arith);
            assert(rem * 10 == t * SCALE + next);
        }
        if d != t {
            return d > t;
        }
        rem = next;
        i = i + 1;
    }
    proof {
        assert(digits@.skip(i as int) =~= Seq::<char>::empty());
        lemma_pow0(10);
    }
    false
}

/// Whether `digits` times ten to the `meant` exponent is above zero, where
/// `exponent` is that exponent, but for the digits behind the point, as far
/// as it was kept.
fn is_above_zero(digits: &Vec<char>, exponent: i128, part: usize, meant: Ghost<int>) -> (res: bool)
    requires
        digits_only(digits@),
        kept(exponent as int, meant@),
        -100 * FAR <= exponent <= 100 * FAR,
    ensures
        res == above_zero(Decimal { digits: digits@, exponent: meant@ - part }),
{
    let len: usize = digits.len();
    let mut from: usize = 0;
    assert(digits@.skip(0) =~= digits@);
    while from < len && digits[from] == '0'
        invariant
            from <= len,
            len == digits@.len(),
            decimal(digits@) == decimal(digits@.skip(from as int)),
        decreases len - from,
    {
        proof {
            lemma_nought_in_front(digits@.skip(from as int));
            assert(digits@.skip(from as int).drop_first() =~= digits@.skip(from + 1));
        }
        from = from + 1;
    }
    let ghost s = digits@.skip(from as int);
    let ghost d = Decimal { digits: s, exponent: meant@ - part };
    if from == len {
        proof {
            if d.exponent < 0 {
                lemma_pow_positive(10, (-d.exponent) as nat);
            }
            assert(decimal(digits@) == 0);
            assert(decimal(digits@) * pow(2, 150) == 0) by (nonlinear_arith)
                requires
                    decimal(digits@) == 0,
            ;
        }
        return false;
    }
    let place: i128 = (len - from) as i128 + exponent - part as i128;
    proof {
        assert forall|i: int| 0 <= i < s.len() implies Class::Digit.has(#[trigger] s[i]) by {
            assert(s[i] == digits@[from + i]);
        }
        lemma_above_zero(d);
    }
    if place >= -44 {
        true
    } else if place <= -46 {
        false
    } else {
        above_mark(digits, from)
    }
}

/// The number that digits stand for, as far as it is kept.
fn read_digits(s: &str) -> (n: i128)
    requires
        digits_only(s@),
    ensures
        kept(n as int, decimal(s@) as int),
        0 <= n <= 10 * FAR + 9,
{
    let len: usize = s.unicode_len();
    let mut chars = s.chars();
    let mut n: i128 = 0;
    let mut seen: usize = 0;
    while seen < len
        invariant
            seen <= len,
            len == s@.len(),
            digits_only(s@),
            vstd::std_specs::iter::IteratorSpec::remaining(&chars) == s@.skip(seen as int),
            kept(n as int, decimal(s@.take(seen as int)) as int),
            0 <= n <= 10 * FAR + 9,
        decreases len - seen,
    {
        proof {
            let now = s@.take(seen + 1);
            assert(now.drop_last() =~= s@.take(seen as int));
            assert(now.last() == s@[seen as int]);
            assert(Class::Digit.has(s@[seen as int]));
        }
        if let Some(c) = chars.next() {
            assert(c == s@[seen as int]);
            if n < FAR {
                n = n * 10 + (c as u32 - '0' as u32) as i128;
            }
        }
        seen = seen + 1;
    }
    assert(s@.take(seen as int) =~= s@);
    n
}

/// Whether a text is one or more digits and nothing else.
fn is_digits(s: &str) -> (yes: bool)
    ensures
        yes == all_digits(s@),
        yes ==> digits_only(s@),
{
    proof {
        text::lemma_leading(s@, Class::Digit);
    }
    let n: usize = text::count_leading(s, Class::Digit);
    n > 0 && n == s.unicode_len()
}

/// The text behind its sign, if it has one.
fn strip_sign(s: &str) -> (res: &str)
    ensures
        res@ == unsigned(s@),
{
    let len: usize = s.unicode_len();
    if len > 0 && (s.get_char(0) == '+' || s.get_char(0) == '-') {
        s.substring_char(1, len)
    } else {
        s
    }
}

/// The exponent behind a number's digits, as far as it is kept.
fn read_exponent(s: &str) -> (res: Option<i128>)
    ensures
        match (res, exponent(s@)) {
            (Some(found), Some(meant)) => kept(found as int, meant) && -(10 * FAR + 9) <= found <= 10
                * FAR + 9,
            (None, None) => true,
            _ => false,
        },
{
    let len: usize = s.unicode_len();
    if len == 0 {
        return Some(0);
    }
    if s.get_char(0) != 'e' {
        return None;
    }
    let signed: &str = s.substring_char(1, len);
    assert(signed@ =~= s@.skip(1));
    let size: &str = strip_sign(signed);
    if !is_digits(size) {
        return None;
    }
    let n: i128 = read_digits(size);
    assert(s@[1] == signed@[0]);
    if signed.get_char(0) == '-' {
        Some(-n)
    } else {
        Some(n)
    }
}

/// Append the characters of a text.
fn push_chars(out: &mut Vec<char>, s: &str)
    ensures
        final(out)@ == old(out)@ + s@,
{
    let len: usize = s.unicode_len();
    let mut chars = s.chars();
    let mut seen: usize = 0;
    while seen < len
        invariant
            seen <= len,
            len == s@.len(),
            vstd::std_specs::iter::IteratorSpec::remaining(&chars) == s@.skip(seen as int),
            out@ == old(out)@ + s@.take(seen as int),
        decreases len - seen,
    {
        if let Some(c) = chars.next() {
            assert(c == s@[seen as int]);
            out.push(c);
        }
        seen = seen + 1;
        assert(out@ =~= old(out)@ + s@.take(seen as int));
    }
    assert(s@.take(seen as int) =~= s@);
}

/// Whether the number that a text spells is above zero.
fn spelled_above_zero(s: &str) -> (res: Option<bool>)
    ensures
        res == match spelled(s@) {
            Some(d) => Some(above_zero(d)),
            None => None,
        },
{
    proof {
        text::lemma_leading(s@, Class::Digit);
    }
    let len: usize = s.unicode_len();
    let whole: usize = text::count_leading(s, Class::Digit);
    let after: &str = s.substring_char(whole, len);
    assert(after@ =~= s@.skip(whole as int));
    let point: bool = whole < len && after.get_char(0) == '.';
    let tail: &str = if point {
        after.substring_char(1, len - whole)
    } else {
        after
    };
    assert(tail@ =~= if point {
        after@.skip(1)
    } else {
        after@
    });
    proof {
        text::lemma_leading(tail@, Class::Digit);
    }
    let part: usize = if point {
        text::count_leading(tail, Class::Digit)
    } else {
        0
    };
    if whole == 0 && part == 0 {
        return None;
    }
    let behind: &str = tail.substring_char(part, tail.unicode_len());
    assert(behind@ =~= tail@.skip(part as int));
    match read_exponent(behind) {
        Some(e) => {
            let mut digits: Vec<char> = Vec::new();
            push_chars(&mut digits, s.substring_char(0, whole));
            push_chars(&mut digits, tail.substring_char(0, part));
            assert(digits@ =~= s@.take(whole as int) + tail@.take(part as int));
            Some(is_above_zero(&digits, e, part, Ghost(exponent(behind@)->0)))
        },
        None => None,
    }
}

/// What a number in lower case says of a switch.
pub(crate) fn number_not_zero(s: &str) -> (res: Option<bool>)
    ensures
        res == not_zero(s@),
{
    let u: &str = strip_sign(s);
    if text::same(u, "inf") || text::same(u, "infinity") || text::same(u, "nan") {
        Some(true)
    } else {
        spelled_above_zero(u)
    }
}

/// The index that a text spells.
pub(crate) fn parse_index(s: &str) -> (res: Option<usize>)
    ensures
        res == index(s@),
{
    let len: usize = s.unicode_len();
    let u: &str = if len > 0 && s.get_char(0) == '+' {
        s.substring_char(1, len)
    } else {
        s
    };
    if !is_digits(u) {
        return None;
    }
    let n: i128 = read_digits(u);
    if n <= usize::MAX as i128 {
        Some(n as usize)
    } else {
        None
    }
}

/// One more digit makes a number ten times as large and adds the digit.
pub proof fn law_digits_count_in_tens(s: Seq<char>, c: char)
    requires
        '0' <= c <= '9',
    ensures
        decimal(seq![]) == 0,
        decimal(s.push(c)) == 10 * decimal(s) + (c as int - 0x30),
{
    assert(s.push(c).drop_last() =~= s);
}

/// A digit alone is the index that it stands for.
pub proof fn law_index_of_one_digit(c: char)
    requires
        '0' <= c <= '9',
    ensures
        index(seq![c]) == Some((c as int - 0x30) as usize),
{
    text::lemma_leading_is(seq![c], Class::Digit, 1);
    assert(seq![c].drop_last() =~= seq![]);
    assert(decimal(seq![]) == 0);
}

/// One more digit makes an index ten times as large and adds the digit, until
/// a `usize` cannot hold it.
pub proof fn law_index_of_one_more_digit(s: Seq<char>, c: char)
    requires
        s.len() > 0,
        forall|i: int| 0 <= i < s.len() ==> '0' <= #[trigger] s[i] <= '9',
        '0' <= c <= '9',
    ensures
        index(s.push(c)) == match index(s) {
            Some(n) if 10 * n + (c as int - 0x30) <= usize::MAX => Some(
                (10 * n + (c as int - 0x30)) as usize,
            ),
            _ => None,
        },
{
    let more = s.push(c);
    assert forall|i: int| 0 <= i < s.len() implies Class::Digit.has(#[trigger] s[i]) by {}
    text::lemma_leading_is(s, Class::Digit, s.len());
    assert forall|i: int| 0 <= i < more.len() implies Class::Digit.has(#[trigger] more[i]) by {
        if i < s.len() {
            assert(more[i] == s[i]);
        }
    }
    text::lemma_leading_is(more, Class::Digit, more.len());
    assert(more[0] == s[0]);
    assert(more.drop_last() =~= s);
}

/// A plus before the digits of an index changes nothing.
pub proof fn law_index_behind_a_plus(s: Seq<char>)
    requires
        s.len() > 0,
        forall|i: int| 0 <= i < s.len() ==> '0' <= #[trigger] s[i] <= '9',
    ensures
        index(seq!['+'] + s) == index(s),
{
    assert((seq!['+'] + s).skip(1) =~= s);
    assert('0' <= s[0] <= '9');
}

/// Anything but digits, perhaps behind one plus, is no index.
pub proof fn law_only_digits_are_an_index(s: Seq<char>, i: int)
    requires
        s.len() == 0 || s == seq!['+'] || (0 <= i < s.len() && !('0' <= s[i] <= '9') && (i > 0
            || s[i] != '+')),
    ensures
        index(s) is None,
{
    let u = if s.len() > 0 && s[0] == '+' {
        s.skip(1)
    } else {
        s
    };
    text::lemma_leading(u, Class::Digit);
    if all_digits(u) {
        if s[0] == '+' {
            assert(Class::Digit.has(u[i - 1]));
        } else {
            assert(Class::Digit.has(u[i]));
        }
    }
}

/// A run of digits is worth nothing only when every one of them is nought.
pub proof fn law_only_noughts_are_nought(s: Seq<char>)
    requires
        forall|i: int| 0 <= i < s.len() ==> '0' <= #[trigger] s[i] <= '9',
    ensures
        decimal(s) == 0 <==> forall|i: int| 0 <= i < s.len() ==> #[trigger] s[i] == '0',
    decreases s.len(),
{
    if s.len() > 0 {
        let init = s.drop_last();
        assert forall|i: int| 0 <= i < init.len() implies '0' <= #[trigger] init[i] <= '9' by {
            assert(init[i] == s[i]);
        }
        law_only_noughts_are_nought(init);
        assert('0' <= s[s.len() - 1] <= '9');
        if decimal(s) == 0 {
            assert forall|i: int| 0 <= i < s.len() implies #[trigger] s[i] == '0' by {
                if i < init.len() {
                    assert(init[i] == s[i]);
                }
            }
        } else if forall|i: int| 0 <= i < s.len() ==> #[trigger] s[i] == '0' {
            assert(s[s.len() - 1] == '0');
            assert forall|i: int| 0 <= i < init.len() implies #[trigger] init[i] == '0' by {
                assert(init[i] == s[i]);
            }
        }
    }
}

/// A number of no more than 45 digits behind the point is above zero unless
/// all its digits are noughts.
pub proof fn lemma_few_places(m: nat, places: nat)
    requires
        places <= 45,
    ensures
        m * pow(2, 150) > pow(10, places) <==> m > 0,
{
    lemma_powers();
    lemma_pow_positive(10, places);
    lemma_pow_increases(10, places, 45);
    let two = pow(2, 150);
    if m > 0 {
        assert(m * two >= two) by (nonlinear_arith)
            requires
                m >= 1,
                two >= 0,
        ;
    } else {
        assert(m * two == 0) by (nonlinear_arith)
            requires
                m == 0,
        ;
    }
}

/// What the text of a number spells, part by part: a sign, digits, a point
/// and digits behind it, and an exponent. `point` and `mark` are empty where
/// there is no point or no exponent.
#[verifier::spinoff_prover]
#[verifier::rlimit(40)]
pub proof fn lemma_parts_of_number(
    w: Seq<char>,
    point: Seq<char>,
    p: Seq<char>,
    mark: Seq<char>,
    xsign: Seq<char>,
    x: Seq<char>,
)
    requires
        forall|i: int| 0 <= i < w.len() ==> '0' <= #[trigger] w[i] <= '9',
        forall|i: int| 0 <= i < p.len() ==> '0' <= #[trigger] p[i] <= '9',
        forall|i: int| 0 <= i < x.len() ==> '0' <= #[trigger] x[i] <= '9',
        w.len() + p.len() > 0,
        point == seq!['.'] || (point.len() == 0 && p.len() == 0),
        (mark == seq!['e'] && x.len() > 0 && (xsign.len() == 0 || xsign == seq!['+'] || xsign
            == seq!['-'])) || (mark.len() == 0 && xsign.len() == 0 && x.len() == 0),
    ensures
        spelled(w + point + p + (mark + xsign + x)) == Some(
            Decimal {
                digits: w + p,
                exponent: (if xsign == seq!['-'] {
                    -(decimal(x) as int)
                } else {
                    decimal(x) as int
                }) - p.len(),
            },
        ),
{
    let behind = mark + xsign + x;
    let s = w + point + p + behind;
    assert forall|i: int| 0 <= i < w.len() implies Class::Digit.has(#[trigger] s[i]) by {
        assert(s[i] == w[i]);
    }
    text::lemma_leading_is(s, Class::Digit, w.len());
    let after = s.skip(w.len() as int);
    assert(after =~= point + p + behind);
    let tail = p + behind;
    if point.len() > 0 {
        assert(after.skip(1) =~= tail);
        assert forall|i: int| 0 <= i < p.len() implies Class::Digit.has(#[trigger] tail[i]) by {
            assert(tail[i] == p[i]);
        }
        text::lemma_leading_is(tail, Class::Digit, p.len());
    } else {
        assert(after =~= tail);
    }
    assert(tail.skip(p.len() as int) =~= behind);
    assert(tail.take(p.len() as int) =~= p);
    assert(s.take(w.len() as int) =~= w);
    assert(exponent(behind) == Some(
        if xsign == seq!['-'] {
            -(decimal(x) as int)
        } else {
            decimal(x) as int
        },
    )) by {
        if mark.len() > 0 {
            assert(behind.skip(1) =~= xsign + x);
            assert('0' <= x[0] <= '9');
            assert(behind[1] == (xsign + x)[0]);
            if xsign.len() > 0 {
                assert((xsign + x).skip(1) =~= x);
            } else {
                assert(xsign + x =~= x);
            }
            assert forall|i: int| 0 <= i < x.len() implies Class::Digit.has(#[trigger] x[i]) by {}
            text::lemma_leading_is(x, Class::Digit, x.len());
        } else {
            assert(decimal(x) == 0);
        }
    }
}

/// The parts of what stands behind a number's digits: nothing, or the mark,
/// perhaps a sign, and digits.
proof fn lemma_exponent_has_parts(s: Seq<char>) -> (parts: (Seq<char>, Seq<char>, Seq<char>))
    requires
        exponent(s) is Some,
    ensures
        s == parts.0 + parts.1 + parts.2,
        forall|i: int| 0 <= i < parts.2.len() ==> '0' <= #[trigger] parts.2[i] <= '9',
        (parts.0 == seq!['e'] && parts.2.len() > 0 && (parts.1.len() == 0 || parts.1 == seq!['+']
            || parts.1 == seq!['-'])) || (parts.0.len() == 0 && parts.1.len() == 0 && parts.2.len()
            == 0),
{
    if s.len() == 0 {
        let none: Seq<char> = seq![];
        assert(s =~= none + none + none);
        (none, none, none)
    } else {
        let signed = s.skip(1);
        let x = unsigned(signed);
        text::lemma_leading(x, Class::Digit);
        assert forall|i: int| 0 <= i < x.len() implies '0' <= #[trigger] x[i] <= '9' by {
            assert(Class::Digit.has(x[i]));
        }
        let xsign = signed.take(signed.len() - x.len());
        if xsign.len() > 0 {
            assert(xsign =~= seq![signed[0]]);
        }
        assert(s =~= seq!['e'] + xsign + x);
        (seq!['e'], xsign, x)
    }
}

/// The parts of a text that spells a number: `w`, `point`, `p`, `mark`,
/// `xsign` and `x`, in their order.
#[verifier::spinoff_prover]
#[verifier::rlimit(40)]
pub proof fn lemma_number_has_parts(s: Seq<char>) -> (parts: (
    Seq<char>,
    Seq<char>,
    Seq<char>,
    Seq<char>,
    Seq<char>,
    Seq<char>,
))
    requires
        spelled(s) is Some,
    ensures
        s == parts.0 + parts.1 + parts.2 + (parts.3 + parts.4 + parts.5),
        forall|i: int| 0 <= i < parts.0.len() ==> '0' <= #[trigger] parts.0[i] <= '9',
        forall|i: int| 0 <= i < parts.2.len() ==> '0' <= #[trigger] parts.2[i] <= '9',
        forall|i: int| 0 <= i < parts.5.len() ==> '0' <= #[trigger] parts.5[i] <= '9',
        parts.0.len() + parts.2.len() > 0,
        parts.1 == seq!['.'] || (parts.1.len() == 0 && parts.2.len() == 0),
        (parts.3 == seq!['e'] && parts.5.len() > 0 && (parts.4.len() == 0 || parts.4 == seq!['+']
            || parts.4 == seq!['-'])) || (parts.3.len() == 0 && parts.4.len() == 0 && parts.5.len()
            == 0),
{
    let whole = text::leading(s, Class::Digit) as int;
    text::lemma_leading(s, Class::Digit);
    let w = s.take(whole);
    let after = s.skip(whole);
    assert forall|i: int| 0 <= i < w.len() implies '0' <= #[trigger] w[i] <= '9' by {
        assert(Class::Digit.has(s[i]));
    }
    let has_point = after.len() > 0 && after[0] == '.';
    let point = if has_point {
        seq!['.']
    } else {
        seq![]
    };
    let tail = if has_point {
        after.skip(1)
    } else {
        after
    };
    assert(after =~= point + tail);
    text::lemma_leading(tail, Class::Digit);
    let part = if has_point {
        text::leading(tail, Class::Digit) as int
    } else {
        0
    };
    let p = tail.take(part);
    assert forall|i: int| 0 <= i < p.len() implies '0' <= #[trigger] p[i] <= '9' by {
        assert(Class::Digit.has(tail[i]));
    }
    let behind = tail.skip(part);
    assert(tail =~= p + behind);
    assert(exponent(behind) is Some);
    let (mark, xsign, x) = lemma_exponent_has_parts(behind);
    assert(s =~= w + point + p + (mark + xsign + x));
    (w, point, p, mark, xsign, x)
}

} // verus!
