//! Board numbers: the exact decimal value a JSON number literal denotes.
//!
//! A board only ever reads numbers two ways — as a timeline column (truncated to an integer) and
//! as a vertical sub-position fraction — and writes them back as plain decimal text. A number is
//! therefore kept as a canonical decimal `±mant × 10^exp`: the first eighteen significant digits
//! of the literal, its exponent, trailing zeros folded into the exponent, and zero unsigned.

use vstd::prelude::*;

verus! {

/// A decimal number `±mant × 10^exp`.
#[derive(Clone, Copy, PartialEq, Eq, Structural, Debug)]
pub struct Number {
    pub neg: bool,
    pub mant: u64,
    pub exp: i64,
}

/// Largest mantissa kept: eighteen decimal digits.
pub const MANT_DIGITS: u64 = 18;

/// Largest exponent magnitude an exponent part is read with.
pub const EXP_CAP: i64 = 400;

pub open spec fn pow10(k: nat) -> nat
    decreases k,
{
    if k == 0 {
        1
    } else {
        10 * pow10((k - 1) as nat)
    }
}

pub open spec fn is_digit(c: char) -> bool {
    '0' <= c && c <= '9'
}

pub open spec fn digit_val(c: char) -> nat {
    (c as int - '0' as int) as nat
}

pub open spec fn digit_char(d: nat) -> char {
    ((d + 48) as u8) as char
}

/// Whether a number is in canonical form: zero is `+0 × 10^0`, otherwise the mantissa has no
/// trailing zero.
pub open spec fn canonical(n: Number) -> bool {
    if n.mant == 0 {
        !n.neg && n.exp == 0
    } else {
        n.mant % 10 != 0
    }
}

/// The canonical number of `±mant × 10^exp`.
pub open spec fn canon(neg: bool, mant: nat, exp: int) -> (bool, nat, int)
    decreases mant,
{
    if mant == 0 {
        (false, 0, 0)
    } else if mant % 10 == 0 {
        canon(neg, mant / 10, exp + 1)
    } else {
        (neg, mant, exp)
    }
}

/// The value of `n` truncated toward zero.
pub open spec fn trunc_int(n: Number) -> int {
    let mag: int = if n.exp >= 0 {
        n.mant * pow10(n.exp as nat)
    } else {
        n.mant as int / pow10((-n.exp) as nat) as int
    };
    if n.neg {
        -mag
    } else {
        mag
    }
}

/// `trunc_int` clamped into the `i64` range, as a float-to-integer `as` cast saturates.
pub open spec fn trunc_i64(n: Number) -> int {
    let t = trunc_int(n);
    if t > i64::MAX {
        i64::MAX as int
    } else if t < i64::MIN {
        i64::MIN as int
    } else {
        t
    }
}

/// The number an integer denotes.
pub open spec fn of_int(i: int) -> Number
    recommends
        i64::MIN <= i <= i64::MAX,
{
    let (neg, mant, exp) = canon(i < 0, (if i < 0 { -i } else { i }) as nat, 0);
    Number { neg, mant: mant as u64, exp: exp as i64 }
}

// ---- the literal grammar -------------------------------------------------------------

/// The number of leading decimal digits of `s`.
pub open spec fn lead_digits(s: Seq<char>) -> nat
    decreases s.len(),
{
    if s.len() > 0 && is_digit(s[0]) {
        1 + lead_digits(s.drop_first())
    } else {
        0
    }
}

/// The value of a digit string.
pub open spec fn digits_val(s: Seq<char>) -> nat
    decreases s.len(),
{
    if s.len() == 0 {
        0
    } else {
        digits_val(s.drop_last()) * 10 + digit_val(s.last())
    }
}

/// Mantissa accumulation over a digit string: leading zeros are skipped, the first eighteen
/// significant digits are kept (`mant`, `kept`), and the rest only counted (`dropped`).
pub open spec fn acc(s: Seq<char>) -> (nat, nat, nat)
    decreases s.len(),
{
    if s.len() == 0 {
        (0, 0, 0)
    } else {
        let (m, k, d) = acc(s.drop_last());
        let v = digit_val(s.last());
        if k == 0 && v == 0 {
            (m, k, d)
        } else if k < MANT_DIGITS {
            (m * 10 + v, k + 1, d)
        } else {
            (m, k, d + 1)
        }
    }
}

/// The parts of a number literal `[sign] digits [. digits] [(e|E) [sign] digits]` (at least one
/// mantissa digit): its sign, integer digits, fraction digits and exponent value; `None` when the
/// text is not such a literal.
pub open spec fn lex_parts(l: Seq<char>) -> Option<(bool, Seq<char>, Seq<char>, int)> {
    let signed = l.len() > 0 && (l[0] == '-' || l[0] == '+');
    let neg = l.len() > 0 && l[0] == '-';
    let b = if signed { l.drop_first() } else { l };
    let ip = lead_digits(b);
    let ints = b.take(ip as int);
    let r1 = b.skip(ip as int);
    let dot = r1.len() > 0 && r1[0] == '.';
    let fp: nat = if dot { lead_digits(r1.drop_first()) } else { 0 };
    let fracs = if dot { r1.drop_first().take(fp as int) } else { Seq::empty() };
    let r2 = if dot { r1.drop_first().skip(fp as int) } else { r1 };
    if ip + fp == 0 {
        None
    } else {
        match exp_part(r2) {
            None => None,
            Some(x) => Some((neg, ints, fracs, x)),
        }
    }
}

/// The value of an optional exponent part `(e|E) [sign] digits`: `Some(0)` when absent, `None`
/// when malformed.
pub open spec fn exp_part(r2: Seq<char>) -> Option<int> {
    if r2.len() == 0 {
        Some(0)
    } else if r2[0] != 'e' && r2[0] != 'E' {
        None
    } else {
        let t = r2.drop_first();
        let xsigned = t.len() > 0 && (t[0] == '-' || t[0] == '+');
        let xneg = t.len() > 0 && t[0] == '-';
        let xd = if xsigned { t.drop_first() } else { t };
        if xd.len() == 0 || lead_digits(xd) != xd.len() {
            None
        } else {
            let x = digits_val(xd) as int;
            Some(if xneg { -x } else { x })
        }
    }
}

pub open spec fn clamp_exp(x: int) -> int {
    if x > EXP_CAP {
        EXP_CAP as int
    } else if x < -EXP_CAP {
        -EXP_CAP
    } else {
        x
    }
}

/// The number a literal denotes: the first eighteen significant digits of its mantissa, with the
/// exponent part read clamped to `±EXP_CAP`.
pub open spec fn lex_number(l: Seq<char>) -> Option<Number> {
    match lex_parts(l) {
        None => None,
        Some((neg, ints, fracs, x)) => {
            let (m, k, d) = acc(ints + fracs);
            let (cn, cm, ce) = canon(neg, m, clamp_exp(x) - fracs.len() + d);
            Some(Number { neg: cn, mant: cm as u64, exp: ce as i64 })
        },
    }
}

// ---- text --------------------------------------------------------------------------------

/// The decimal digits of a natural number, most significant first.
pub open spec fn dec_digits(m: nat) -> Seq<char>
    decreases m,
{
    if m < 10 {
        seq![digit_char(m)]
    } else {
        dec_digits(m / 10).push(digit_char(m % 10))
    }
}

pub open spec fn zeros(k: nat) -> Seq<char> {
    Seq::new(k, |i: int| '0')
}

/// The plain decimal text of a number (no exponent notation), as a float's `Display` writes it.
pub open spec fn number_text(n: Number) -> Seq<char> {
    if n.mant == 0 {
        seq!['0']
    } else {
        let d = dec_digits(n.mant as nat);
        let sign: Seq<char> = if n.neg { seq!['-'] } else { Seq::empty() };
        if n.exp >= 0 {
            sign + d + zeros(n.exp as nat)
        } else {
            let k = -n.exp;
            if k < d.len() {
                sign + d.take(d.len() - k) + seq!['.'] + d.skip(d.len() - k)
            } else {
                sign + seq!['0', '.'] + zeros((k - d.len()) as nat) + d
            }
        }
    }
}

/// The text of an integer.
pub open spec fn int_text(i: int) -> Seq<char> {
    if i < 0 {
        seq!['-'] + dec_digits((-i) as nat)
    } else {
        dec_digits(i as nat)
    }
}

// ---- lemmas ----------------------------------------------------------------------------

pub proof fn lemma_pow10_pos(k: nat)
    ensures
        pow10(k) >= 1,
    decreases k,
{
    if k > 0 {
        lemma_pow10_pos((k - 1) as nat);
    }
}

proof fn lemma_canon_canonical(neg: bool, mant: nat, exp: int)
    ensures
        ({
            let (cn, cm, ce) = canon(neg, mant, exp);
            &&& cm <= mant
            &&& (cm == 0 ==> !cn && ce == 0)
            &&& (cm != 0 ==> cm % 10 != 0)
            &&& (mant != 0 ==> cm != 0 && exp <= ce && ce <= exp + mant)
        }),
    decreases mant,
{
    if mant != 0 && mant % 10 == 0 {
        assert(mant / 10 + 1 <= mant);
        lemma_canon_canonical(neg, mant / 10, exp + 1);
    }
}

proof fn lemma_lead_digits_bound(s: Seq<char>)
    ensures
        lead_digits(s) <= s.len(),
        forall|i: int| 0 <= i < lead_digits(s) ==> is_digit(#[trigger] s[i]),
        lead_digits(s) < s.len() ==> !is_digit(s[lead_digits(s) as int]),
    decreases s.len(),
{
    if s.len() > 0 && is_digit(s[0]) {
        lemma_lead_digits_bound(s.drop_first());
        assert forall|i: int| 0 <= i < lead_digits(s) implies is_digit(#[trigger] s[i]) by {
            if i > 0 {
                assert(s[i] == s.drop_first()[i - 1]);
            }
        }
    }
}

proof fn lemma_lead_digits_skip(s: Seq<char>, i: int)
    requires
        0 <= i <= lead_digits(s),
    ensures
        lead_digits(s.skip(i)) == lead_digits(s) - i,
    decreases i,
{
    lemma_lead_digits_bound(s);
    if i == 0 {
        assert(s.skip(0) =~= s);
    } else {
        assert(s.len() > 0 && is_digit(s[0]));
        assert(lead_digits(s) == 1 + lead_digits(s.drop_first()));
        assert(s.skip(i) =~= s.drop_first().skip(i - 1));
        lemma_lead_digits_skip(s.drop_first(), i - 1);
    }
}

proof fn lemma_acc_bounds(s: Seq<char>)
    requires
        forall|i: int| 0 <= i < s.len() ==> is_digit(#[trigger] s[i]),
    ensures
        ({
            let (m, k, d) = acc(s);
            &&& k <= MANT_DIGITS
            &&& m < pow10(k)
            &&& d <= s.len()
            &&& k + d <= s.len()
        }),
    decreases s.len(),
{
    if s.len() > 0 {
        assert(is_digit(s[s.len() - 1]));
        lemma_acc_bounds(s.drop_last());
        let (m, k, d) = acc(s.drop_last());
        let v = digit_val(s.last());
        assert(v <= 9);
        if !(k == 0 && v == 0) && k < MANT_DIGITS {
            assert(m * 10 + v < pow10((k + 1) as nat)) by (nonlinear_arith)
                requires
                    m < pow10(k),
                    v <= 9,
                    pow10((k + 1) as nat) == 10 * pow10(k),
            ;
        }
    }
}

pub proof fn lemma_pow10_18()
    ensures
        pow10(18) == 1_000_000_000_000_000_000,
{
    reveal_with_fuel(pow10, 19);
}


proof fn lemma_pow10_mono(a: nat, b: nat)
    requires
        a <= b,
    ensures
        pow10(a) <= pow10(b),
    decreases b,
{
    if a < b {
        lemma_pow10_mono(a, (b - 1) as nat);
        lemma_pow10_pos((b - 1) as nat);
    }
}

proof fn lemma_pow10_20()
    ensures
        pow10(20) > u64::MAX,
{
    reveal_with_fuel(pow10, 21);
}

/// A mantissa below `2^64` carries fewer than twenty trailing zeros.
proof fn lemma_pow10_small(k: nat, m: nat)
    requires
        m >= 1,
        m * pow10(k) <= u64::MAX,
    ensures
        k < 20,
{
    if k >= 20 {
        lemma_pow10_mono(20, k);
        lemma_pow10_20();
        assert(m * pow10(k) >= pow10(k)) by (nonlinear_arith)
            requires
                m >= 1,
        ;
    }
}

proof fn lemma_canon_step(neg: bool, m: nat, e: int)
    requires
        m != 0,
        m % 10 == 0,
    ensures
        canon(neg, m, e) == canon(neg, m / 10, e + 1),
{
}

/// The canonical form of `±mant × 10^exp`.
pub fn canonicalize(neg: bool, mant: u64, exp: i64) -> (n: Number)
    requires
        exp <= i64::MAX - 20,
    ensures
        ({
            let (cn, cm, ce) = canon(neg, mant as nat, exp as int);
            n.neg == cn && n.mant == cm && n.exp == ce
        }),
        canonical(n),
{
    proof {
        lemma_canon_canonical(neg, mant as nat, exp as int);
    }
    if mant == 0 {
        return Number { neg: false, mant: 0, exp: 0 };
    }
    let mut m = mant;
    let mut e = exp;
    assert(pow10(0) == 1);
    assert((e - exp) as nat == 0nat);
    assert(m * pow10((e - exp) as nat) == mant);
    while m % 10 == 0
        invariant
            m != 0,
            exp <= i64::MAX - 20,
            exp <= e,
            m * pow10((e - exp) as nat) == mant,
            canon(neg, m as nat, e as int) == canon(neg, mant as nat, exp as int),
            e <= exp + 20,
        decreases m,
    {
        proof {
            lemma_canon_step(neg, m as nat, e as int);
            let k = (e - exp) as nat;
            assert((m / 10) * pow10(k + 1) == mant) by (nonlinear_arith)
                requires
                    m * pow10(k) == mant,
                    m % 10 == 0,
                    pow10(k + 1) == 10 * pow10(k),
            ;
            lemma_pow10_small(k + 1, (m / 10) as nat);
            assert(e - exp + 1 < 20);
        }
        assert(e < exp + 19);
        m = m / 10;
        e = e + 1;
    }
    proof {
        lemma_canon_canonical(neg, m as nat, e as int);
    }
    Number { neg, mant: m, exp: e }
}

/// The number an integer denotes.
pub fn from_i64(i: i64) -> (n: Number)
    ensures
        n == of_int(i as int),
        canonical(n),
{
    let mag: u64 = if i < 0 {
        ((-(i + 1)) as u64) + 1
    } else {
        i as u64
    };
    canonicalize(i < 0, mag, 0)
}

proof fn lemma_mul_pow_step(m: nat, k: nat)
    ensures
        m * pow10(k + 1) == (m * pow10(k)) * 10,
{
    assert(m * pow10(k + 1) == (m * pow10(k)) * 10) by (nonlinear_arith)
        requires
            pow10(k + 1) == 10 * pow10(k),
    ;
}

proof fn lemma_mul_pow_mono(m: nat, a: nat, b: nat)
    requires
        a <= b,
    ensures
        m * pow10(a) <= m * pow10(b),
{
    lemma_pow10_mono(a, b);
    assert(m * pow10(a) <= m * pow10(b)) by (nonlinear_arith)
        requires
            pow10(a) <= pow10(b),
    ;
}

proof fn lemma_div_pow_step(m: nat, k: nat)
    ensures
        m as int / pow10(k + 1) as int == (m as int / pow10(k) as int) / 10,
{
    lemma_pow10_pos(k);
    vstd::arithmetic::div_mod::lemma_div_denominator(m as int, pow10(k) as int, 10);
    assert(pow10(k) * 10 == pow10(k + 1));
}

proof fn lemma_div_pow_zero(m: nat, a: nat, b: nat)
    requires
        a <= b,
        m as int / pow10(a) as int == 0,
    ensures
        m as int / pow10(b) as int == 0,
{
    lemma_pow10_mono(a, b);
    lemma_pow10_pos(a);
    vstd::arithmetic::div_mod::lemma_div_is_ordered_by_denominator(
        m as int,
        pow10(a) as int,
        pow10(b) as int,
    );
}

impl Number {
    /// The value truncated toward zero, saturating at the `i64` bounds (a float `as` cast).
    pub fn to_i64(&self) -> (r: i64)
        ensures
            r == trunc_i64(*self),
    {
        let lim: u128 = 0x8000_0000_0000_0000;
        let mut mag: u128 = self.mant as u128;
        let exp = self.exp as i128;
        if exp >= 0 {
            let mut k: i128 = 0;
            let mut sat = mag > lim;
            assert(pow10(0) == 1);
            proof {
                lemma_mul_pow_mono(self.mant as nat, 0, exp as nat);
            }
            while k < exp && !sat
                invariant
                    lim == 0x8000_0000_0000_0000,
                    exp == self.exp,
                    0 <= k <= exp,
                    !sat ==> mag == self.mant * pow10(k as nat) && mag <= lim,
                    sat ==> self.mant * pow10(exp as nat) > lim && mag > lim,
                decreases exp - k + (if sat { 0int } else { 1int }),
            {
                proof {
                    lemma_mul_pow_step(self.mant as nat, k as nat);
                }
                if mag > lim / 10 {
                    proof {
                        lemma_mul_pow_mono(self.mant as nat, (k + 1) as nat, exp as nat);
                    }
                    mag = lim + 1;
                    sat = true;
                } else {
                    mag = mag * 10;
                    k = k + 1;
                }
            }
            assert(mag <= lim ==> mag == self.mant * pow10(self.exp as nat));
            assert(mag > lim ==> self.mant * pow10(self.exp as nat) > lim);
        } else {
            let mut k: i128 = 0;
            proof {
                assert(pow10(0) == 1);
                assert(self.mant as int / pow10(0) as int == self.mant as int);
            }
            while k < -exp && mag != 0
                invariant
                    exp == self.exp,
                    0 <= k <= -exp,
                    exp < 0,
                    mag == self.mant as int / pow10(k as nat) as int,
                decreases -exp - k,
            {
                proof {
                    lemma_div_pow_step(self.mant as nat, k as nat);
                }
                mag = mag / 10;
                k = k + 1;
            }
            proof {
                if mag == 0 {
                    lemma_div_pow_zero(self.mant as nat, k as nat, (-exp) as nat);
                }
            }
        }
        if self.neg {
            if mag >= lim {
                i64::MIN
            } else {
                -(mag as i64)
            }
        } else if mag >= lim {
            i64::MAX
        } else {
            mag as i64
        }
    }
}

/// A bound on the length of a text the parsers read. They read a text as its characters, and a
/// `Vec<char>` of this many would take more than `isize::MAX` bytes, more than one allocation can
/// hold: so every text whose characters can be held meets it, on any target.
pub const MAX_TEXT: usize = usize::MAX / 4;

proof fn lemma_lead_digits_exact(s: Seq<char>, k: int)
    requires
        0 <= k <= s.len(),
        forall|i: int| 0 <= i < k ==> is_digit(#[trigger] s[i]),
        k == s.len() || !is_digit(s[k]),
    ensures
        lead_digits(s) == k,
    decreases k,
{
    if k > 0 {
        assert forall|i: int| 0 <= i < k - 1 implies is_digit(#[trigger] s.drop_first()[i]) by {
            assert(s.drop_first()[i] == s[i + 1]);
        }
        if k - 1 < s.drop_first().len() {
            assert(s.drop_first()[k - 1] == s[k]);
        }
        lemma_lead_digits_exact(s.drop_first(), k - 1);
    }
}

/// Whether a character is a decimal digit.
pub fn is_ascii_digit(c: char) -> (b: bool)
    ensures
        b == is_digit(c),
{
    '0' <= c && c <= '9'
}

/// The end of the run of digits that starts at `i` (bounded by `end`).
pub fn scan_digits(c: &Vec<char>, i: usize, end: usize) -> (j: usize)
    requires
        i <= end <= c.len(),
    ensures
        i <= j <= end,
        j - i == lead_digits(c@.subrange(i as int, end as int)),
        forall|k: int| i <= k < j ==> is_digit(#[trigger] c@[k]),
{
    let mut j = i;
    while j < end && is_ascii_digit(c[j])
        invariant
            i <= j <= end <= c.len(),
            forall|k: int| i <= k < j ==> is_digit(#[trigger] c@[k]),
        decreases end - j,
    {
        j = j + 1;
    }
    proof {
        let s = c@.subrange(i as int, end as int);
        assert forall|k: int| 0 <= k < j - i implies is_digit(#[trigger] s[k]) by {
            assert(s[k] == c@[i + k]);
        }
        if j < end {
            assert(s[j - i] == c@[j as int]);
        }
        lemma_lead_digits_exact(s, j - i);
    }
    j
}

proof fn lemma_digits_val_step(s: Seq<char>, k: int)
    requires
        0 <= k < s.len(),
    ensures
        digits_val(s.take(k + 1)) == digits_val(s.take(k)) * 10 + digit_val(s[k]),
{
    assert(s.take(k + 1).drop_last() =~= s.take(k));
}

proof fn lemma_acc_step(s: Seq<char>, k: int)
    requires
        0 <= k < s.len(),
    ensures
        acc(s.take(k + 1)) == ({
            let (m, kk, d) = acc(s.take(k));
            let v = digit_val(s[k]);
            if kk == 0 && v == 0 {
                (m, kk, d)
            } else if kk < MANT_DIGITS {
                (m * 10 + v, kk + 1, d)
            } else {
                (m, kk, d + 1)
            }
        }),
{
    assert(s.take(k + 1).drop_last() =~= s.take(k));
}

/// The exponent part `c[q..end]`, read clamped to `EXP_CAP`; `None` when malformed.
fn read_exponent(c: &Vec<char>, q: usize, end: usize) -> (r: Option<i64>)
    requires
        q <= end <= c.len(),
    ensures
        r is Some == exp_part(c@.subrange(q as int, end as int)) is Some,
        r matches Some(x) ==> x == clamp_exp(exp_part(c@.subrange(q as int, end as int))->0),
{
    let ghost r2 = c@.subrange(q as int, end as int);
    if q == end {
        return Some(0);
    }
    if c[q] != 'e' && c[q] != 'E' {
        return None;
    }
    let ts = q + 1;
    let xsigned = ts < end && (c[ts] == '-' || c[ts] == '+');
    let xneg = ts < end && c[ts] == '-';
    let xs = if xsigned { ts + 1 } else { ts };
    let ghost t = c@.subrange(ts as int, end as int);
    let ghost xd = c@.subrange(xs as int, end as int);
    assert(r2.drop_first() =~= t);
    assert((if xsigned { t.drop_first() } else { t }) =~= xd);
    let xe = scan_digits(c, xs, end);
    if xs == end || xe != end {
        return None;
    }
    let mut x: i64 = 0;
    let mut k = xs;
    assert(xd.take(0) =~= Seq::<char>::empty());
    while k < end
        invariant
            xs <= k <= end <= c.len(),
            xd == c@.subrange(xs as int, end as int),
            forall|p: int| xs <= p < end ==> is_digit(#[trigger] c@[p]),
            0 <= x <= EXP_CAP,
            x == (if digits_val(xd.take(k - xs)) > EXP_CAP {
                EXP_CAP as int
            } else {
                digits_val(xd.take(k - xs)) as int
            }),
        decreases end - k,
    {
        proof {
            lemma_digits_val_step(xd, k - xs);
            assert(xd[k - xs] == c@[k as int]);
        }
        let d = (c[k] as u32 - '0' as u32) as i64;
        let nx = x * 10 + d;
        x = if nx > EXP_CAP { EXP_CAP } else { nx };
        k = k + 1;
    }
    assert(xd.take(end - xs) =~= xd);
    if xneg {
        Some(-x)
    } else {
        Some(x)
    }
}

/// Mantissa accumulation over the digits `c[bs..ie] + c[fs..fe]`.
fn read_mantissa(c: &Vec<char>, bs: usize, ie: usize, fs: usize, fe: usize) -> (r: (u64, u64, u64))
    requires
        bs <= ie <= c.len(),
        fs <= fe <= c.len(),
        c.len() < MAX_TEXT,
        forall|q: int| bs <= q < ie ==> is_digit(#[trigger] c@[q]),
        forall|q: int| fs <= q < fe ==> is_digit(#[trigger] c@[q]),
    ensures
        acc(c@.subrange(bs as int, ie as int) + c@.subrange(fs as int, fe as int)) == (
            r.0 as nat,
            r.1 as nat,
            r.2 as nat,
        ),
        r.2 <= (ie - bs) + (fe - fs),
{
    let ghost ds = c@.subrange(bs as int, ie as int) + c@.subrange(fs as int, fe as int);
    let ip = ie - bs;
    let n = ip + (fe - fs);
    let mut m: u64 = 0;
    let mut kept: u64 = 0;
    let mut dropped: u64 = 0;
    let mut k: usize = 0;
    assert(ds.take(0) =~= Seq::<char>::empty());
    while k < n
        invariant
            n == ip + (fe - fs),
            ds.len() == n,
            ds == c@.subrange(bs as int, ie as int) + c@.subrange(fs as int, fe as int),
            ip == ie - bs,
            bs <= ie <= c.len(),
            fs <= fe <= c.len(),
            forall|q: int| bs <= q < ie ==> is_digit(#[trigger] c@[q]),
            forall|q: int| fs <= q < fe ==> is_digit(#[trigger] c@[q]),
            0 <= k <= n,
            acc(ds.take(k as int)) == (m as nat, kept as nat, dropped as nat),
            kept <= MANT_DIGITS,
            m < pow10(kept as nat),
            dropped <= k,
        decreases n - k,
    {
        let d = if k < ip {
            c[bs + k]
        } else {
            c[fs + (k - ip)]
        };
        proof {
            assert(ds[k as int] == d);
            lemma_acc_step(ds, k as int);
            lemma_pow10_18();
            lemma_pow10_mono(kept as nat, 18);
        }
        let v = (d as u32 - '0' as u32) as u64;
        if kept == 0 && v == 0 {
        } else if kept < MANT_DIGITS {
            proof {
                assert(m * 10 + v < pow10((kept + 1) as nat)) by (nonlinear_arith)
                    requires
                        m < pow10(kept as nat),
                        v <= 9,
                        pow10((kept + 1) as nat) == 10 * pow10(kept as nat),
                ;
            }
            m = m * 10 + v;
            kept = kept + 1;
        } else {
            dropped = dropped + 1;
        }
        k = k + 1;
    }
    assert(ds.take(n as int) =~= ds);
    (m, kept, dropped)
}

/// The parts of the literal `c[start..end]` as positions: its sign, the integer digits
/// `c[bs..ie]`, the fraction digits `c[fs..fe]` and the exponent read clamped; `None` when it is
/// not a number literal.
#[verifier::spinoff_prover]
#[verifier::rlimit(50)]
fn read_parts(c: &Vec<char>, start: usize, end: usize) -> (r: Option<(bool, usize, usize, usize, usize, i64)>)
    requires
        start <= end <= c.len(),
    ensures
        r is None <==> lex_parts(c@.subrange(start as int, end as int)) is None,
        r matches Some((neg, bs, ie, fs, fe, x)) ==> {
            &&& bs <= ie <= c.len()
            &&& fs <= fe <= c.len()
            &&& fe - fs <= end - start
            &&& ie - bs <= end - start
            &&& forall|q: int| bs <= q < ie ==> is_digit(#[trigger] c@[q])
            &&& forall|q: int| fs <= q < fe ==> is_digit(#[trigger] c@[q])
            &&& lex_parts(c@.subrange(start as int, end as int)) matches Some((n2, ints, fracs, x2))
                && n2 == neg && ints == c@.subrange(bs as int, ie as int) && fracs == c@.subrange(
                fs as int,
                fe as int,
            ) && x == clamp_exp(x2)
        },
{
    let ghost l = c@.subrange(start as int, end as int);
    let signed = start < end && (c[start] == '-' || c[start] == '+');
    let neg = start < end && c[start] == '-';
    let bs = if signed { start + 1 } else { start };
    let ghost b = if signed { l.drop_first() } else { l };
    assert(b =~= c@.subrange(bs as int, end as int));
    let ie = scan_digits(c, bs, end);
    let ip = ie - bs;
    assert(b.take(ip as int) =~= c@.subrange(bs as int, ie as int));
    assert(b.skip(ip as int) =~= c@.subrange(ie as int, end as int));
    let ghost r1 = b.skip(ip as int);
    let dot = ie < end && c[ie] == '.';
    let fs = if dot { ie + 1 } else { ie };
    let fe = if dot { scan_digits(c, fs, end) } else { ie };
    let fp = fe - fs;
    proof {
        if dot {
            assert(r1.drop_first() =~= c@.subrange(fs as int, end as int));
            assert(r1.drop_first().take(fp as int) =~= c@.subrange(fs as int, fe as int));
            assert(r1.drop_first().skip(fp as int) =~= c@.subrange(fe as int, end as int));
        } else {
            assert(c@.subrange(fs as int, fe as int) =~= Seq::<char>::empty());
        }
    }
    if ip + fp == 0 {
        return None;
    }
    let x = match read_exponent(c, fe, end) {
        None => return None,
        Some(x) => x,
    };
    Some((neg, bs, ie, fs, fe, x))
}

/// The number a literal `c[start..end]` denotes, or `None` when it is not a number literal.
pub fn parse_lexeme(c: &Vec<char>, start: usize, end: usize) -> (r: Option<Number>)
    requires
        start <= end <= c.len(),
        c.len() < MAX_TEXT,
    ensures
        r == lex_number(c@.subrange(start as int, end as int)),
        r matches Some(n) ==> canonical(n),
{
    match read_parts(c, start, end) {
        None => None,
        Some((neg, bs, ie, fs, fe, x)) => {
            let fp = fe - fs;
            let (m, _kept, dropped) = read_mantissa(c, bs, ie, fs, fe);
            let e = x - (fp as i64) + (dropped as i64);
            let r = canonicalize(neg, m, e);
            Some(r)
        },
    }
}

/// Appends the decimal digits of `m`.
pub fn push_dec(m: u64, out: &mut Vec<char>)
    ensures
        final(out)@ == old(out)@ + dec_digits(m as nat),
    decreases m,
{
    if m < 10 {
        out.push(((m as u8) + 48u8) as char);
        assert(final(out)@ =~= old(out)@ + dec_digits(m as nat));
    } else {
        push_dec(m / 10, out);
        out.push((((m % 10) as u8) + 48u8) as char);
        assert(final(out)@ =~= old(out)@ + dec_digits(m as nat));
    }
}

/// Appends the decimal text of an integer.
pub fn push_int(i: i64, out: &mut Vec<char>)
    ensures
        final(out)@ == old(out)@ + int_text(i as int),
{
    if i < 0 {
        out.push('-');
        let mag: u64 = ((-(i + 1)) as u64) + 1;
        push_dec(mag, out);
        assert(final(out)@ =~= old(out)@ + int_text(i as int));
    } else {
        push_dec(i as u64, out);
    }
}

/// Appends `k` zero digits.
fn push_zeros(k: u64, out: &mut Vec<char>)
    ensures
        final(out)@ == old(out)@ + zeros(k as nat),
{
    let mut j: u64 = 0;
    while j < k
        invariant
            j <= k,
            out@ == old(out)@ + zeros(j as nat),
        decreases k - j,
    {
        out.push('0');
        j = j + 1;
        assert(out@ =~= old(out)@ + zeros(j as nat));
    }
}

impl Number {
    /// Appends the plain decimal text of this number.
    #[verifier::rlimit(50)]
    pub fn push_text(&self, out: &mut Vec<char>)
        ensures
            final(out)@ == old(out)@ + number_text(*self),
    {
        if self.mant == 0 {
            out.push('0');
            assert(final(out)@ =~= old(out)@ + number_text(*self));
            return;
        }
        if self.neg {
            out.push('-');
        }
        let ghost sign: Seq<char> = if self.neg { seq!['-'] } else { Seq::empty() };
        let ghost start = old(out)@ + sign;
        assert(out@ =~= start);
        let mut d: Vec<char> = Vec::new();
        push_dec(self.mant, &mut d);
        assert(d@ =~= dec_digits(self.mant as nat));
        if self.exp >= 0 {
            let mut i: usize = 0;
            while i < d.len()
                invariant
                    i <= d.len(),
                    out@ == start + d@.take(i as int),
                decreases d.len() - i,
            {
                out.push(d[i]);
                i = i + 1;
                assert(out@ =~= start + d@.take(i as int));
            }
            assert(d@.take(d.len() as int) =~= d@);
            push_zeros(self.exp as u64, out);
            assert(final(out)@ =~= old(out)@ + number_text(*self));
        } else {
            let k = -(self.exp as i128);
            let len = d.len();
            if k < len as i128 {
                let cut = len - (k as usize);
                let mut i: usize = 0;
                while i < len
                    invariant
                        i <= len == d.len(),
                        cut <= len,
                        out@ == start + (if i <= cut {
                            d@.take(i as int)
                        } else {
                            d@.take(cut as int) + seq!['.'] + d@.subrange(cut as int, i as int)
                        }),
                    decreases len - i,
                {
                    if i == cut {
                        out.push('.');
                    }
                    out.push(d[i]);
                    i = i + 1;
                    assert(out@ =~= start + (if i <= cut {
                        d@.take(i as int)
                    } else {
                        d@.take(cut as int) + seq!['.'] + d@.subrange(cut as int, i as int)
                    }));
                }
                assert(d@.subrange(cut as int, len as int) =~= d@.skip(cut as int));
                assert(final(out)@ =~= old(out)@ + number_text(*self));
            } else {
                out.push('0');
                out.push('.');
                push_zeros((k - len as i128) as u64, out);
                let mut i: usize = 0;
                let ghost mid = out@;
                while i < len
                    invariant
                        i <= len == d.len(),
                        out@ == mid + d@.take(i as int),
                    decreases len - i,
                {
                    out.push(d[i]);
                    i = i + 1;
                    assert(out@ =~= mid + d@.take(i as int));
                }
                assert(d@.take(len as int) =~= d@);
                assert(final(out)@ =~= old(out)@ + number_text(*self));
            }
        }
    }
}

pub open spec fn zero() -> Number {
    Number { neg: false, mant: 0, exp: 0 }
}

pub open spec fn one() -> Number {
    Number { neg: false, mant: 1, exp: 0 }
}

pub open spec fn half() -> Number {
    Number { neg: false, mant: 5, exp: -1i64 }
}

/// Whether a number is below zero.
pub open spec fn is_negative(n: Number) -> bool {
    n.neg && n.mant != 0
}

/// Whether a non-negative number is above one.
pub open spec fn exceeds_one(n: Number) -> bool {
    !n.neg && n.mant != 0 && if n.exp >= 0 {
        n.mant * pow10(n.exp as nat) > 1
    } else {
        n.mant > pow10((-n.exp) as nat)
    }
}

/// A number clamped into `[0, 1]`.
pub open spec fn clamp01(n: Number) -> Number {
    if is_negative(n) {
        zero()
    } else if exceeds_one(n) {
        one()
    } else {
        n
    }
}

/// A non-negative number rounded to four decimals, halves away from zero.
pub open spec fn round4(n: Number) -> Number {
    if n.exp >= -4 {
        n
    } else {
        let k = (-n.exp - 4) as nat;
        let q = n.mant as nat / pow10(k);
        let r = n.mant as nat % pow10(k);
        let q2 = if 2 * r >= pow10(k) { q + 1 } else { q };
        let (cn, cm, ce) = canon(false, q2, -4);
        Number { neg: cn, mant: cm as u64, exp: ce as i64 }
    }
}

/// The stored form of a posted vertical sub-position: clamped into `[0, 1]`, rounded to four
/// decimals.
pub open spec fn clamp_y_spec(n: Number) -> Number {
    round4(clamp01(n))
}

/// The ordering key a stored sub-position denotes: clamped into `[0, 1]`, one half when absent.
pub open spec fn y_key_spec(y: Option<Number>) -> Number {
    match y {
        Some(n) => clamp01(n),
        None => half(),
    }
}

proof fn lemma_pow10_20_exact()
    ensures
        pow10(20) == 100_000_000_000_000_000_000,
{
    reveal_with_fuel(pow10, 21);
}

/// `10^k` for `k <= 20`.
fn pow10_exec(k: u32) -> (r: u128)
    requires
        k <= 20,
    ensures
        r == pow10(k as nat),
{
    let mut r: u128 = 1;
    let mut i: u32 = 0;
    proof {
        lemma_pow10_20_exact();
    }
    while i < k
        invariant
            i <= k <= 20,
            r == pow10(i as nat),
            pow10(20) == 100_000_000_000_000_000_000,
        decreases k - i,
    {
        proof {
            lemma_pow10_mono((i + 1) as nat, 20);
        }
        r = r * 10;
        i = i + 1;
    }
    r
}

/// Whether a canonical number lies above one.
fn exceeds_one_exec(n: &Number) -> (b: bool)
    ensures
        b == exceeds_one(*n),
{
    if n.neg || n.mant == 0 {
        return false;
    }
    if n.exp >= 0 {
        proof {
            if n.exp > 0 {
                lemma_mul_pow_mono(n.mant as nat, 1, n.exp as nat);
                reveal_with_fuel(pow10, 2);
                assert(pow10(1) == 10);
                assert(n.mant * pow10(1) == n.mant * 10);
                assert(n.mant * pow10(n.exp as nat) > 1);
            } else {
                assert(pow10(0) == 1);
                assert(n.mant * pow10(0) == n.mant) by (nonlinear_arith)
                    requires
                        pow10(0) == 1,
                ;
            }
        }
        n.mant > 1 || n.exp > 0
    } else if n.exp < -19 {
        proof {
            lemma_pow10_mono(20, (-n.exp) as nat);
            lemma_pow10_20_exact();
        }
        false
    } else {
        let p = pow10_exec((-n.exp) as u32);
        (n.mant as u128) > p
    }
}

/// The number clamped into `[0, 1]`.
pub fn clamp_unit(n: Number) -> (r: Number)
    ensures
        r == clamp01(n),
        canonical(n) ==> canonical(r),
{
    if n.neg && n.mant != 0 {
        Number { neg: false, mant: 0, exp: 0 }
    } else if exceeds_one_exec(&n) {
        Number { neg: false, mant: 1, exp: 0 }
    } else {
        n
    }
}

/// A canonical non-negative number rounded to four decimals, halves away from zero.
fn round_four(n: Number) -> (r: Number)
    ensures
        r == round4(n),
        canonical(n) ==> canonical(r),
{
    if n.exp >= -4 {
        return n;
    }
    let ghost k = (-n.exp - 4) as nat;
    if n.exp < -23 {
        proof {
            lemma_pow10_mono(20, k);
            lemma_pow10_20_exact();
            vstd::arithmetic::div_mod::lemma_small_mod(n.mant as nat, pow10(k));
            assert(n.mant as nat / pow10(k) == 0) by {
                vstd::arithmetic::div_mod::lemma_basic_div(n.mant as int, pow10(k) as int);
            }
        }
        return Number { neg: false, mant: 0, exp: 0 };
    }
    let p = pow10_exec((-n.exp - 4) as u32);
    proof {
        lemma_pow10_pos(k);
        lemma_pow10_20_exact();
        lemma_pow10_mono(k, 20);
    }
    assert(p == pow10(k));
    assert(p >= 10) by {
        lemma_pow10_mono(1, k);
        reveal_with_fuel(pow10, 2);
    }
    let q = (n.mant as u128) / p;
    let r = (n.mant as u128) % p;
    let q2 = if 2 * r >= p { q + 1 } else { q };
    assert(q <= n.mant / 10) by {
        vstd::arithmetic::div_mod::lemma_div_is_ordered_by_denominator(n.mant as int, 10, p as int);
    }
    assert(q2 <= u64::MAX);
    assert(q2 == (if 2 * (n.mant as nat % pow10(k)) >= pow10(k) {
        n.mant as nat / pow10(k) + 1
    } else {
        n.mant as nat / pow10(k)
    }));
    canonicalize(false, q2 as u64, -4)
}

/// The stored form of a posted vertical sub-position: clamped into `[0, 1]` and rounded to four
/// decimals, so the log carries a clean number.
pub fn clamp_y(y: Number) -> (r: Number)
    ensures
        r == clamp_y_spec(y),
        canonical(y) ==> canonical(r),
{
    round_four(clamp_unit(y))
}

/// The ordering key a stored sub-position denotes: clamped into `[0, 1]`, with one half (the
/// neutral middle) for an unplaced element.
pub fn y_key(y: Option<Number>) -> (r: Number)
    ensures
        r == y_key_spec(y),
{
    match y {
        Some(n) => clamp_unit(n),
        None => Number { neg: false, mant: 5, exp: -1 },
    }
}

/// A string whose first `k` characters are digits but whose `k`-th is not has exactly `k` leading
/// digits.
pub proof fn lemma_lead_digits_prefix(s: Seq<char>, k: int)
    requires
        0 <= k < s.len(),
        forall|i: int| 0 <= i < k ==> is_digit(#[trigger] s[i]),
        !is_digit(s[k]),
    ensures
        lead_digits(s) == k,
        lead_digits(s) != s.len(),
{
    lemma_lead_digits_exact(s, k);
}

/// A string of digits is all leading digits.
pub proof fn lemma_lead_digits_all(s: Seq<char>)
    requires
        forall|i: int| 0 <= i < s.len() ==> is_digit(#[trigger] s[i]),
    ensures
        lead_digits(s) == s.len(),
{
    lemma_lead_digits_exact(s, s.len() as int);
}

/// The value of a digit string is at least the value of each of its prefixes.
pub proof fn lemma_digits_val_mono(s: Seq<char>, k: int)
    requires
        0 <= k <= s.len(),
    ensures
        digits_val(s.take(k)) <= digits_val(s),
    decreases s.len() - k,
{
    if k < s.len() {
        lemma_digits_val_mono(s, k + 1);
        assert(s.take(k + 1).drop_last() =~= s.take(k));
    } else {
        assert(s.take(k) =~= s);
    }
}

proof fn lemma_pow10_grows(k: nat)
    ensures
        pow10(k) >= k + 1,
    decreases k,
{
    if k > 0 {
        lemma_pow10_grows((k - 1) as nat);
    }
}

proof fn lemma_canon_value(neg: bool, mant: nat, exp: int)
    requires
        mant != 0,
    ensures
        canon(neg, mant, exp).0 == neg,
        canon(neg, mant, exp).2 >= exp,
        canon(neg, mant, exp).1 * pow10((canon(neg, mant, exp).2 - exp) as nat) == mant,
    decreases mant,
{
    if mant % 10 == 0 {
        assert(mant == 10 * (mant / 10));
        assert(mant / 10 != 0);
        assert(canon(neg, mant, exp) == canon(neg, mant / 10, exp + 1));
        lemma_canon_value(neg, mant / 10, exp + 1);
        let cm = canon(neg, mant / 10, exp + 1).1;
        let ce = canon(neg, mant / 10, exp + 1).2;
        let k = (ce - exp - 1) as nat;
        assert(cm * pow10(k) == mant / 10);
        assert(pow10((ce - exp) as nat) == 10 * pow10(k));
        assert(cm * (10 * pow10(k)) == 10 * (cm * pow10(k))) by (nonlinear_arith);
        let p = pow10((ce - exp) as nat);
        assert(cm * p == cm * (10 * pow10(k))) by (nonlinear_arith)
            requires
                p == 10 * pow10(k),
        ;
        assert(cm * p == mant);
    } else {
        assert(canon(neg, mant, exp) == (neg, mant, exp));
        let p = pow10(0);
        assert(p == 1);
        assert(mant * p == mant) by (nonlinear_arith)
            requires
                p == 1,
        ;
        assert((exp - exp) as nat == 0);
    }
}

/// An integer written as a number and read back truncated is the same integer.
pub proof fn lemma_int_round_trip(i: i64)
    ensures
        trunc_i64(of_int(i as int)) == i,
{
    let mag: nat = (if i < 0 { -i } else { i as int }) as nat;
    let n = of_int(i as int);
    if mag != 0 {
        lemma_canon_value(i < 0, mag, 0);
        lemma_canon_canonical(i < 0, mag, 0);
        let cm = canon(i < 0, mag, 0).1;
        let ce = canon(i < 0, mag, 0).2;
        lemma_pow10_grows(ce as nat);
        lemma_pow10_pos(ce as nat);
        let p = pow10(ce as nat);
        assert(cm * p >= p) by (nonlinear_arith)
            requires
                cm >= 1,
                p >= 1,
        ;
        assert(mag <= 0x8000_0000_0000_0000);
        assert(n.exp == ce);
        assert(n.mant == cm);
        assert(n.neg == (i < 0));
        assert(trunc_int(n) == i);
    } else {
        assert(n.mant == 0 && n.exp == 0);
        let p = pow10(0);
        assert(0 * p == 0) by (nonlinear_arith);
        assert(trunc_int(n) == 0);
    }
}


// ---- reading back what was written -------------------------------------------------------

proof fn lemma_digit_char(d: nat)
    requires
        d < 10,
    ensures
        is_digit(digit_char(d)),
        digit_val(digit_char(d)) == d,
        digit_char(d) == '0' <==> d == 0,
{
    assert(((d + 48) as u8) as int == d + 48);
}

/// The digits of a positive number are all digits and the first is not a zero.
pub proof fn lemma_dec_digits_shape(m: nat)
    requires
        m > 0,
    ensures
        dec_digits(m).len() >= 1,
        forall|i: int| 0 <= i < dec_digits(m).len() ==> is_digit(#[trigger] dec_digits(m)[i]),
        dec_digits(m)[0] != '0',
    decreases m,
{
    if m < 10 {
        lemma_digit_char(m);
    } else {
        lemma_dec_digits_shape(m / 10);
        lemma_digit_char(m % 10);
        let d = dec_digits(m);
        assert(d == dec_digits(m / 10).push(digit_char(m % 10)));
        assert forall|i: int| 0 <= i < d.len() implies is_digit(#[trigger] d[i]) by {
            if i < d.len() - 1 {
                assert(d[i] == dec_digits(m / 10)[i]);
            }
        }
    }
}

/// A number below `10^j` has at most `j` digits.
pub proof fn lemma_dec_digits_len(m: nat, j: nat)
    requires
        0 < m < pow10(j),
    ensures
        dec_digits(m).len() <= j,
    decreases m,
{
    if m < 10 {
        if j == 0 {
            assert(pow10(0) == 1);
        }
        assert(dec_digits(m).len() == 1);
        if j == 0 {
            assert(false);
        }
    } else {
        if j == 0 {
            assert(pow10(0) == 1);
            assert(false);
        }
        let p = pow10((j - 1) as nat);
        assert(pow10(j) == 10 * p);
        assert(m / 10 < p) by (nonlinear_arith)
            requires
                m < 10 * p,
        ;
        lemma_dec_digits_len(m / 10, (j - 1) as nat);
    }
}

/// Reading the digits of a positive number of at most eighteen digits keeps all of them.
proof fn lemma_acc_dec(m: nat)
    requires
        m > 0,
        dec_digits(m).len() <= MANT_DIGITS,
    ensures
        acc(dec_digits(m)) == (m, dec_digits(m).len(), 0nat),
    decreases m,
{
    let d = dec_digits(m);
    if m < 10 {
        lemma_digit_char(m);
        assert(d.drop_last() =~= Seq::<char>::empty());
        assert(acc(d.drop_last()) == (0nat, 0nat, 0nat));
    } else {
        lemma_dec_digits_shape(m / 10);
        lemma_digit_char(m % 10);
        assert(d.drop_last() =~= dec_digits(m / 10));
        lemma_acc_dec(m / 10);
        assert(m / 10 * 10 + m % 10 == m);
    }
}

/// A run of zeros reads as nothing at all.
proof fn lemma_acc_zeros(z: nat)
    ensures
        acc(zeros(z)) == (0nat, 0nat, 0nat),
    decreases z,
{
    if z > 0 {
        assert(zeros(z).drop_last() =~= zeros((z - 1) as nat));
        lemma_acc_zeros((z - 1) as nat);
        lemma_digit_char(0);
        assert(zeros(z).last() == '0');
    }
}

/// Leading zeros do not change what a digit string reads as.
proof fn lemma_acc_zeros_prefix(z: nat, s: Seq<char>)
    ensures
        acc(zeros(z) + s) == acc(s),
    decreases s.len(),
{
    if s.len() == 0 {
        assert(zeros(z) + s =~= zeros(z));
        lemma_acc_zeros(z);
    } else {
        assert((zeros(z) + s).drop_last() =~= zeros(z) + s.drop_last());
        assert((zeros(z) + s).last() == s.last());
        lemma_acc_zeros_prefix(z, s.drop_last());
    }
}

/// Trailing zeros after `L` significant digits are kept up to eighteen digits and counted beyond.
proof fn lemma_acc_zeros_suffix(d: Seq<char>, m: nat, l: nat, e: nat)
    requires
        acc(d) == (m, l, 0nat),
        1 <= l <= MANT_DIGITS,
    ensures
        ({
            let t: nat = if e <= MANT_DIGITS - l { e } else { (MANT_DIGITS - l) as nat };
            acc(d + zeros(e)) == (m * pow10(t), l + t, (e - t) as nat)
        }),
    decreases e,
{
    if e == 0 {
        assert(d + zeros(0) =~= d);
        assert(m * pow10(0) == m) by (nonlinear_arith)
            requires
                pow10(0) == 1,
        ;
    } else {
        let e1 = (e - 1) as nat;
        assert((d + zeros(e)).drop_last() =~= d + zeros(e1));
        assert((d + zeros(e)).last() == '0');
        lemma_digit_char(0);
        lemma_acc_zeros_suffix(d, m, l, e1);
        let t1: nat = if e1 <= MANT_DIGITS - l { e1 } else { (MANT_DIGITS - l) as nat };
        lemma_mul_pow_step(m, t1);
    }
}

/// Trailing zeros shifted into the mantissa of a canonical number come back out as exponent.
proof fn lemma_canon_shift(neg: bool, m: nat, t: nat, x: int)
    requires
        m > 0,
        m % 10 != 0,
    ensures
        canon(neg, m * pow10(t), x) == (neg, m, x + t),
    decreases t,
{
    if t == 0 {
        assert(m * pow10(0) == m) by (nonlinear_arith)
            requires
                pow10(0) == 1,
        ;
    } else {
        let t1 = (t - 1) as nat;
        lemma_mul_pow_step(m, t1);
        lemma_pow10_pos(t1);
        let a = m * pow10(t1);
        assert(a >= 1) by (nonlinear_arith)
            requires
                m >= 1,
                pow10(t1) >= 1,
                a == m * pow10(t1),
        ;
        assert((a * 10) % 10 == 0);
        assert((a * 10) / 10 == a);
        lemma_canon_shift(neg, m, t1, x + 1);
    }
}

/// The sign of a number's text is read off ahead of its body.
proof fn lemma_sign_split(n: Number, body: Seq<char>)
    requires
        body.len() > 0,
        body[0] != '-' && body[0] != '+',
        number_text(n) == (if n.neg { seq!['-'] } else { Seq::<char>::empty() }) + body,
    ensures
        ({
            let l = number_text(n);
            let signed = l.len() > 0 && (l[0] == '-' || l[0] == '+');
            &&& signed == n.neg
            &&& (l.len() > 0 && l[0] == '-') == n.neg
            &&& (if signed { l.drop_first() } else { l }) == body
        }),
{
    let l = number_text(n);
    if n.neg {
        assert(l.drop_first() =~= body);
    } else {
        assert(l =~= body);
    }
}

/// A positive canonical number with a non-negative exponent: digits, then zeros.
proof fn lemma_text_whole(n: Number)
    requires
        canonical(n),
        n.mant > 0,
        n.mant < pow10(MANT_DIGITS as nat),
        n.exp >= 0,
    ensures
        lex_number(number_text(n)) == Some(n),
{
    let m = n.mant as nat;
    let d = dec_digits(m);
    let l = d.len();
    lemma_dec_digits_shape(m);
    lemma_dec_digits_len(m, MANT_DIGITS as nat);
    lemma_acc_dec(m);
    lemma_digit_char(0);
    let e = n.exp as nat;
    let body = d + zeros(e);
    assert forall|i: int| 0 <= i < body.len() implies is_digit(#[trigger] body[i]) by {
        if i < l {
            assert(body[i] == d[i]);
        } else {
            assert(body[i] == '0');
        }
    }
    assert(body[0] == d[0]);
    let sign: Seq<char> = if n.neg { seq!['-'] } else { Seq::empty() };
    assert(number_text(n) =~= sign + body);
    lemma_sign_split(n, body);
    lemma_lead_digits_all(body);
    assert(body.take(body.len() as int) =~= body);
    assert(body.skip(body.len() as int) =~= Seq::<char>::empty());
    assert(body + Seq::<char>::empty() =~= body);
    assert(lex_parts(number_text(n)) == Some((n.neg, body, Seq::<char>::empty(), 0int)));
    lemma_acc_zeros_suffix(d, m, l, e);
    let tt: nat = if e <= MANT_DIGITS - l { e } else { (MANT_DIGITS - l) as nat };
    lemma_canon_shift(n.neg, m, tt, (e - tt) as int);
}

/// A positive canonical number whose point falls inside its digits.
proof fn lemma_text_point(n: Number)
    requires
        canonical(n),
        n.mant > 0,
        n.mant < pow10(MANT_DIGITS as nat),
        n.exp < 0,
        -n.exp < dec_digits(n.mant as nat).len(),
    ensures
        lex_number(number_text(n)) == Some(n),
{
    let m = n.mant as nat;
    let d = dec_digits(m);
    let l = d.len() as int;
    lemma_dec_digits_shape(m);
    lemma_dec_digits_len(m, MANT_DIGITS as nat);
    lemma_acc_dec(m);
    let k = -n.exp;
    let body = d.take(l - k) + seq!['.'] + d.skip(l - k);
    assert(body[0] == d[0]);
    let sign: Seq<char> = if n.neg { seq!['-'] } else { Seq::empty() };
    assert(number_text(n) =~= sign + body);
    lemma_sign_split(n, body);
    assert forall|i: int| 0 <= i < l - k implies is_digit(#[trigger] body[i]) by {
        assert(body[i] == d[i]);
    }
    assert(body[l - k] == '.');
    lemma_lead_digits_prefix(body, l - k);
    let ints = body.take(l - k);
    assert(ints =~= d.take(l - k));
    let r1 = body.skip(l - k);
    let f = d.skip(l - k);
    assert(r1.drop_first() =~= f);
    assert(r1[0] == '.');
    assert forall|i: int| 0 <= i < f.len() implies is_digit(#[trigger] f[i]) by {
        assert(f[i] == d[i + l - k]);
    }
    lemma_lead_digits_all(f);
    assert(f.take(f.len() as int) =~= f);
    assert(f.skip(f.len() as int) =~= Seq::<char>::empty());
    assert(lex_parts(number_text(n)) == Some((n.neg, ints, f, 0int)));
    assert(ints + f =~= d);
    assert(canon(n.neg, m, 0 - k + 0) == (n.neg, m, -k));
}

/// A positive canonical number below one whose digits all follow the point.
proof fn lemma_text_fraction(n: Number)
    requires
        canonical(n),
        n.mant > 0,
        n.mant < pow10(MANT_DIGITS as nat),
        n.exp < 0,
        -n.exp >= dec_digits(n.mant as nat).len(),
    ensures
        lex_number(number_text(n)) == Some(n),
{
    let m = n.mant as nat;
    let d = dec_digits(m);
    let l = d.len() as int;
    lemma_dec_digits_shape(m);
    lemma_dec_digits_len(m, MANT_DIGITS as nat);
    lemma_acc_dec(m);
    lemma_digit_char(0);
    let k = -n.exp;
    let zz = (k - l) as nat;
    let body = seq!['0', '.'] + zeros(zz) + d;
    assert(body[0] == '0');
    assert(body[1] == '.');
    let sign: Seq<char> = if n.neg { seq!['-'] } else { Seq::empty() };
    assert(number_text(n) =~= sign + body);
    lemma_sign_split(n, body);
    lemma_lead_digits_prefix(body, 1);
    let ints = body.take(1);
    assert(ints =~= seq!['0']);
    let r1 = body.skip(1);
    let f = zeros(zz) + d;
    assert(r1.drop_first() =~= f);
    assert(r1[0] == '.');
    assert forall|i: int| 0 <= i < f.len() implies is_digit(#[trigger] f[i]) by {
        if i < zz {
            assert(f[i] == '0');
        } else {
            assert(f[i] == d[i - zz]);
        }
    }
    lemma_lead_digits_all(f);
    assert(f.take(f.len() as int) =~= f);
    assert(f.skip(f.len() as int) =~= Seq::<char>::empty());
    assert(lex_parts(number_text(n)) == Some((n.neg, ints, f, 0int)));
    assert(ints + f =~= zeros(zz + 1) + d);
    lemma_acc_zeros_prefix(zz + 1, d);
    assert(canon(n.neg, m, 0 - k + 0) == (n.neg, m, -k));
}

/// The text of a canonical number of at most eighteen significant digits reads back as that
/// number.
pub proof fn lemma_number_text_round_trip(n: Number)
    requires
        canonical(n),
        n.mant < pow10(MANT_DIGITS as nat),
    ensures
        lex_number(number_text(n)) == Some(n),
{
    if n.mant == 0 {
        let b = seq!['0'];
        assert(number_text(n) == b);
        lemma_digit_char(0);
        lemma_lead_digits_all(b);
        assert(b.take(1) =~= b);
        assert(b.skip(1) =~= Seq::<char>::empty());
        assert(b + Seq::<char>::empty() =~= b);
        assert(lex_parts(b) == Some((false, b, Seq::<char>::empty(), 0int)));
        assert(b =~= zeros(1));
        lemma_acc_zeros(1);
    } else if n.exp >= 0 {
        lemma_text_whole(n);
    } else if -n.exp < dec_digits(n.mant as nat).len() {
        lemma_text_point(n);
    } else {
        lemma_text_fraction(n);
    }
}

/// The number of an integer of at most eighteen digits is canonical with at most eighteen
/// significant digits.
pub proof fn lemma_of_int_exact(i: i64)
    requires
        -(pow10(MANT_DIGITS as nat) as int) < i < pow10(MANT_DIGITS as nat),
    ensures
        canonical(of_int(i as int)),
        of_int(i as int).mant < pow10(MANT_DIGITS as nat),
{
    let mag: nat = (if i < 0 { -i } else { i as int }) as nat;
    lemma_canon_canonical(i < 0, mag, 0);
    lemma_pow10_18();
}


// ---- exponents -------------------------------------------------------------------------------

proof fn lemma_lead_digits_concat(s: Seq<char>, t: Seq<char>)
    ensures
        lead_digits(s + t) == if lead_digits(s) < s.len() {
            lead_digits(s)
        } else {
            s.len() + lead_digits(t)
        },
    decreases s.len(),
{
    lemma_lead_digits_bound(s);
    if s.len() == 0 {
        assert(s + t =~= t);
    } else {
        assert((s + t)[0] == s[0]);
        if is_digit(s[0]) {
            assert((s + t).drop_first() =~= s.drop_first() + t);
            lemma_lead_digits_concat(s.drop_first(), t);
        }
    }
}

pub(crate) proof fn lemma_digits_val_dec(n: nat)
    ensures
        digits_val(dec_digits(n)) == n,
        lead_digits(dec_digits(n)) == dec_digits(n).len(),
    decreases n,
{
    if n < 10 {
        lemma_digit_char(n);
        let d = dec_digits(n);
        assert(d.drop_last() =~= Seq::<char>::empty());
        assert(d.drop_first() =~= Seq::<char>::empty());
        assert(digits_val(d.drop_last()) == 0);
        assert(digits_val(d) == digits_val(d.drop_last()) * 10 + digit_val(d.last()));
    } else {
        lemma_digits_val_dec(n / 10);
        lemma_digit_char(n % 10);
        lemma_dec_digits_shape(n);
        lemma_lead_digits_all(dec_digits(n));
        let d = dec_digits(n);
        assert(d.drop_last() =~= dec_digits(n / 10));
        assert(d.last() == digit_char(n % 10));
        assert((n / 10) * 10 + n % 10 == n);
        assert(digits_val(d) == digits_val(d.drop_last()) * 10 + digit_val(d.last()));
    }
    if n < 10 {
        lemma_lead_digits_all(dec_digits(n));
    }
}

proof fn lemma_canon_add(neg: bool, m: nat, e: int, x: int)
    ensures
        canon(neg, m, e + x) == (canon(neg, m, e).0, canon(neg, m, e).1, if m == 0 {
            0
        } else {
            canon(neg, m, e).2 + x
        }),
    decreases m,
{
    if m != 0 && m % 10 == 0 {
        lemma_canon_add(neg, m / 10, e + 1, x);
        assert(e + x + 1 == e + 1 + x);
    }
}

/// The number a literal's exponent gives: the literal's number times `10^x`.
pub open spec fn scaled(n: Number, x: int) -> Number {
    if n.mant == 0 {
        n
    } else {
        Number { neg: n.neg, mant: n.mant, exp: (n.exp + x) as i64 }
    }
}

proof fn lemma_exponent_value(x: int)
    ensures
        exp_part(seq!['e'] + int_text(x)) == Some(x),
{
    let sfx = seq!['e'] + int_text(x);
    let t = int_text(x);
    assert(sfx[0] == 'e');
    assert(sfx.drop_first() =~= t);
    if x < 0 {
        let dd = dec_digits((-x) as nat);
        lemma_digits_val_dec((-x) as nat);
        assert(t.drop_first() =~= dd);
        lemma_dec_digits_shape((-x) as nat);
    } else {
        let dd = dec_digits(x as nat);
        lemma_digits_val_dec(x as nat);
        if x > 0 {
            lemma_dec_digits_shape(x as nat);
        } else {
            lemma_digit_char(0);
        }
        assert(is_digit(dd[0]));
    }
}

#[verifier::rlimit(50)]
proof fn lemma_exponent_parts(l: Seq<char>, x: int)
    requires
        lex_number(l) is Some,
        forall|i: int| 0 <= i < l.len() ==> #[trigger] l[i] != 'e' && l[i] != 'E',
    ensures
        lex_parts(l) matches Some((neg, ints, fracs, x0)) && x0 == 0 && lex_parts(
            l + seq!['e'] + int_text(x),
        ) == Some((neg, ints, fracs, x)) && ints.len() + fracs.len() <= l.len() && forall|i: int|
            0 <= i < (ints + fracs).len() ==> is_digit(#[trigger] (ints + fracs)[i]),
{
    let sfx = seq!['e'] + int_text(x);
    let big = l + sfx;
    assert(l + seq!['e'] + int_text(x) =~= big);
    let signed = l.len() > 0 && (l[0] == '-' || l[0] == '+');
    let b = if signed { l.drop_first() } else { l };
    let bb = if signed { big.drop_first() } else { big };
    assert(l.len() > 0);
    assert(big[0] == l[0]);
    assert(bb =~= b + sfx);
    lemma_lead_digits_bound(b);
    let ip = lead_digits(b);
    assert(sfx[0] == 'e');
    assert(lead_digits(sfx) == 0);
    lemma_lead_digits_concat(b, sfx);
    assert(lead_digits(bb) == ip);
    let r1 = b.skip(ip as int);
    assert(bb.take(ip as int) =~= b.take(ip as int));
    assert(bb.skip(ip as int) =~= r1 + sfx);
    let dot = r1.len() > 0 && r1[0] == '.';
    if r1.len() > 0 {
        assert((r1 + sfx)[0] == r1[0]);
    }
    let off0: int = if signed { 1 } else { 0 };
    assert(r1 =~= l.skip(off0 + ip));
    if dot {
        let q = r1.drop_first();
        lemma_lead_digits_bound(q);
        let fp = lead_digits(q);
        lemma_lead_digits_concat(q, sfx);
        assert((r1 + sfx).drop_first() =~= q + sfx);
        assert((q + sfx).take(fp as int) =~= q.take(fp as int));
        let r2 = q.skip(fp as int);
        assert((q + sfx).skip(fp as int) =~= r2 + sfx);
        assert(r2 =~= l.skip(off0 + ip + 1 + fp));
        if r2.len() > 0 {
            assert(r2[0] == l[off0 + ip + 1 + fp]);
        }
        assert(r2.len() == 0);
        assert(r2 + sfx =~= sfx);
    } else {
        if r1.len() > 0 {
            assert(r1[0] == l[off0 + ip]);
        }
        assert(r1.len() == 0);
        assert(r1 + sfx =~= sfx);
    }
    lemma_exponent_value(x);
    let (neg, ints, fracs, x0) = lex_parts(l)->0;
    assert(x0 == 0);
    assert(lex_parts(big) == Some((neg, ints, fracs, x)));
    let ds = ints + fracs;
    assert forall|i: int| 0 <= i < ints.len() implies is_digit(#[trigger] ints[i]) by {
        assert(ints[i] == b[i]);
    }
    if dot {
        let q = r1.drop_first();
        lemma_lead_digits_bound(q);
        assert forall|i: int| 0 <= i < fracs.len() implies is_digit(#[trigger] fracs[i]) by {
            assert(fracs[i] == q[i]);
        }
    }
    assert forall|i: int| 0 <= i < ds.len() implies is_digit(#[trigger] ds[i]) by {
        if i < ints.len() {
            assert(ds[i] == ints[i]);
        } else {
            assert(ds[i] == fracs[i - ints.len()]);
        }
    }
}

/// An exponent scales a literal: a number literal without one, followed by `e` and an exponent
/// `x` within `±EXP_CAP`, reads as the number the literal reads as, times `10^x`.
pub proof fn an_exponent_scales_the_literal(l: Seq<char>, x: int)
    requires
        lex_number(l) is Some,
        forall|i: int| 0 <= i < l.len() ==> #[trigger] l[i] != 'e' && l[i] != 'E',
        -EXP_CAP <= x <= EXP_CAP,
        l.len() < 0x1000_0000_0000_0000,
    ensures
        lex_number(l + seq!['e'] + int_text(x)) == Some(scaled(lex_number(l)->0, x)),
{
    lemma_exponent_parts(l, x);
    let (neg, ints, fracs, x0) = lex_parts(l)->0;
    let ds = ints + fracs;
    lemma_acc_bounds(ds);
    let (m, k, d) = acc(ds);
    lemma_pow10_mono(k, 18);
    lemma_pow10_18();
    let e0 = 0 - fracs.len() + d;
    lemma_canon_add(neg, m, e0, x);
    lemma_canon_canonical(neg, m, e0);
    assert(clamp_exp(x) == x);
    assert(clamp_exp(0) == 0);
    assert(e0 + x == clamp_exp(x) - fracs.len() + d);
}

} // verus!
