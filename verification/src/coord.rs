use vstd::prelude::*;

verus! {

/// Magnitude cap for the integer part of a coordinate. Values whose integer
/// part exceeds this are stored saturated at the cap; the cap is far above
/// the canvas range (`i32`), so sizing and pixel placement are unaffected.
pub const INT_CAP: u64 = 1000000000000000;

/// Number of fraction digits a coordinate keeps. Truncation toward zero
/// ignores the fraction entirely and rounding to the nearest integer needs
/// only the first fraction digit, so keeping this many is more than enough.
pub const FRAC_DIGITS: u8 = 15;

/// ASCII digit test.
pub open spec fn is_digit(b: u8) -> bool {
    48 <= b && b <= 57
}

/// Numeric value of an ASCII digit.
pub open spec fn digit_val(b: u8) -> nat {
    (b - 48) as nat
}

/// Value of a most-significant-first sequence of ASCII digits.
pub open spec fn digits_val(s: Seq<u8>) -> nat
    decreases s.len(),
{
    if s.len() == 0 {
        0
    } else {
        digits_val(s.drop_last()) * 10 + digit_val(s.last())
    }
}

/// Ten to the power `n`.
pub open spec fn pow10(n: nat) -> nat
    decreases n,
{
    if n == 0 {
        1
    } else {
        10 * pow10((n - 1) as nat)
    }
}

/// Magnitude cap for an exponent. Shifts this large saturate the integer
/// part (or flush the fraction to zero) exactly as any larger shift would,
/// so capping here changes no stored coordinate.
pub const EXP_CAP: u64 = 1000000000000000;

/// ASCII `+` or `-`.
pub open spec fn is_sign(b: u8) -> bool {
    b == 43 || b == 45
}

/// ASCII `e` or `E`, which separates the mantissa from the exponent.
pub open spec fn is_exp_marker(b: u8) -> bool {
    b == 101 || b == 69
}

/// Every byte of `s` is an ASCII digit.
pub open spec fn all_digits(s: Seq<u8>) -> bool {
    forall|i: int| 0 <= i < s.len() ==> is_digit(#[trigger] s[i])
}

/// A mantissa: digits with at most one dot among them, and at least one digit.
pub open spec fn is_mantissa(s: Seq<u8>) -> bool {
    &&& forall|i: int| 0 <= i < s.len() ==> is_digit(#[trigger] s[i]) || s[i] == 46
    &&& forall|i: int, j: int| 0 <= i < j < s.len() && s[i] == 46 ==> s[j] != 46
    &&& exists|i: int| 0 <= i < s.len() && is_digit(#[trigger] s[i])
}

/// An exponent tail (everything after the `e`): an optional sign, then at
/// least one digit.
pub open spec fn is_exp_tail(s: Seq<u8>) -> bool {
    if s.len() >= 1 && is_sign(s[0]) {
        s.len() >= 2 && all_digits(s.skip(1))
    } else {
        s.len() >= 1 && all_digits(s)
    }
}

/// `s` without its leading sign, if it has one.
pub open spec fn strip_sign(s: Seq<u8>) -> Seq<u8> {
    if s.len() >= 1 && is_sign(s[0]) {
        s.skip(1)
    } else {
        s
    }
}

/// The (sign-stripped) body splits into mantissa, marker and exponent at `i`.
pub open spec fn exp_split_at(b: Seq<u8>, i: int) -> bool {
    &&& 0 <= i < b.len()
    &&& is_exp_marker(b[i])
    &&& is_mantissa(b.take(i))
    &&& is_exp_tail(b.skip(i + 1))
}

/// The body carries an exponent part.
pub open spec fn has_exp(b: Seq<u8>) -> bool {
    exists|i: int| exp_split_at(b, i)
}

/// A decimal numeric literal: an optional sign, a mantissa, and an optional
/// exponent part.
#[verifier::opaque]
pub open spec fn is_number(s: Seq<u8>) -> bool {
    let b = strip_sign(s);
    is_mantissa(b) || has_exp(b)
}

/// Where the body splits before its exponent part (its length if none).
pub open spec fn exp_split(b: Seq<u8>) -> int {
    if has_exp(b) {
        choose|i: int| exp_split_at(b, i)
    } else {
        b.len() as int
    }
}

/// At most one split position exists: a marker inside a mantissa is
/// impossible, so two split positions contradict each other.
pub proof fn lemma_exp_split_unique(b: Seq<u8>, i: int, j: int)
    requires
        exp_split_at(b, i),
        exp_split_at(b, j),
    ensures
        i == j,
{
    if i < j {
        assert(b.take(j)[i] == b[i]);
    }
    if j < i {
        assert(b.take(i)[j] == b[j]);
    }
}

/// The mantissa of the body: everything before the exponent part.
pub open spec fn mant_of(b: Seq<u8>) -> Seq<u8> {
    if has_exp(b) {
        b.take(exp_split(b))
    } else {
        b
    }
}

/// Magnitude of the exponent, capped at `EXP_CAP`.
pub open spec fn exp_mag(b: Seq<u8>) -> nat {
    if has_exp(b) {
        let t = b.skip(exp_split(b) + 1);
        let v = digits_val(strip_sign(t));
        if v > EXP_CAP {
            EXP_CAP as nat
        } else {
            v
        }
    } else {
        0
    }
}

/// The exponent is negative.
pub open spec fn exp_is_neg(b: Seq<u8>) -> bool {
    has_exp(b) && {
        let t = b.skip(exp_split(b) + 1);
        t.len() >= 1 && t[0] == 45
    }
}

/// Signed, capped exponent of the body.
pub open spec fn exp_of(b: Seq<u8>) -> int {
    if exp_is_neg(b) {
        -(exp_mag(b) as int)
    } else {
        exp_mag(b) as int
    }
}

/// Index of the mantissa's dot (the mantissa's length if it has none).
pub open spec fn dot_pos(m: Seq<u8>) -> int {
    if exists|i: int| 0 <= i < m.len() && m[i] == 46 {
        choose|i: int| 0 <= i < m.len() && m[i] == 46
    } else {
        m.len() as int
    }
}

/// The mantissa's digits with the dot taken out.
pub open spec fn mant_digits(m: Seq<u8>) -> Seq<u8> {
    let p = dot_pos(m);
    if 0 <= p < m.len() {
        m.take(p) + m.skip(p + 1)
    } else {
        m
    }
}

/// `ds` brought to length `n`: cut off, or padded with ASCII zeros.
pub open spec fn zpad(ds: Seq<u8>, n: nat) -> Seq<u8> {
    Seq::new(n, |i: int| if i < ds.len() { ds[i] } else { 48u8 })
}

/// `v` capped at `INT_CAP`.
pub open spec fn cap_int(v: nat) -> nat {
    if v > INT_CAP {
        INT_CAP as nat
    } else {
        v
    }
}

/// Integer part of a value whose digits are `ds` with the decimal point
/// after position `sp`: the first `sp` digits (zero-padded on the right for
/// positive exponent shifts), capped at `INT_CAP`.
pub open spec fn int_part_val(ds: Seq<u8>, sp: int) -> nat {
    if sp <= 0 {
        0
    } else {
        cap_int(digits_val(zpad(ds, sp as nat)))
    }
}

/// How many fraction digits are kept for the decimal point at `sp`.
pub open spec fn frac_len_of(ds: Seq<u8>, sp: int) -> nat {
    if sp >= ds.len() {
        0
    } else if ds.len() - sp >= FRAC_DIGITS {
        FRAC_DIGITS as nat
    } else {
        (ds.len() - sp) as nat
    }
}

/// The kept fraction digits: positions `sp..sp + flen` of `ds`, reading a
/// zero at positions before the digits start (negative exponent shifts).
pub open spec fn frac_window(ds: Seq<u8>, sp: int) -> Seq<u8> {
    Seq::new(
        frac_len_of(ds, sp),
        |i: int| if 0 <= sp + i < ds.len() {
            ds[sp + i]
        } else {
            48u8
        },
    )
}

/// Value of the kept fraction digits.
pub open spec fn frac_val(ds: Seq<u8>, sp: int) -> nat {
    digits_val(frac_window(ds, sp))
}

/// The coordinate denoted by the literal `s` (meaningful when `is_number(s)`).
#[verifier::opaque]
pub open spec fn coord_of(s: Seq<u8>) -> Coord {
    let b = strip_sign(s);
    let m = mant_of(b);
    let ds = mant_digits(m);
    let sp = dot_pos(m) + exp_of(b);
    Coord {
        neg: s.len() >= 1 && s[0] == 45,
        ipart: int_part_val(ds, sp) as u64,
        fpart: frac_val(ds, sp) as u64,
        flen: frac_len_of(ds, sp) as u8,
    }
}

/// A coordinate as an exact parsed decimal: a sign, an integer part
/// (saturated at `INT_CAP`), and up to `FRAC_DIGITS` fraction digits.
///
/// `fpart` holds the fraction digits read as an integer; `flen` is how many
/// digits that is, so the represented fraction is `fpart / 10^flen`.
#[derive(Clone, Copy, PartialEq, Eq, Structural, Debug)]
pub struct Coord {
    /// True when the literal carried a leading minus sign.
    pub neg: bool,
    /// Integer part of the magnitude, saturated at `INT_CAP`.
    pub ipart: u64,
    /// Fraction digits read as an integer (`flen` digits, leading zeros kept).
    pub fpart: u64,
    /// Number of fraction digits stored, at most `FRAC_DIGITS`.
    pub flen: u8,
}

impl Coord {
    /// Well-formedness: the parts stay inside their stated bounds.
    pub open spec fn wf(self) -> bool {
        &&& self.ipart <= INT_CAP
        &&& self.flen <= FRAC_DIGITS
        &&& (self.fpart as nat) < pow10(self.flen as nat)
    }

    /// The coordinate truncated toward zero, as used for canvas sizing.
    pub open spec fn trunc(self) -> int {
        if self.neg {
            -(self.ipart as int)
        } else {
            self.ipart as int
        }
    }

    /// First fraction digit (0 when there is no fraction).
    pub open spec fn first_frac_digit(self) -> nat {
        if self.flen == 0 {
            0
        } else {
            (self.fpart as nat) / pow10((self.flen - 1) as nat)
        }
    }

    /// The coordinate rounded to the nearest integer, half away from zero,
    /// as used for pixel placement.
    pub open spec fn round(self) -> int {
        let mag = self.ipart as int + if self.first_frac_digit() >= 5 {
            1int
        } else {
            0int
        };
        if self.neg {
            -mag
        } else {
            mag
        }
    }

    /// Executable truncation toward zero.
    pub fn trunc_i64(&self) -> (r: i64)
        requires
            self.wf(),
        ensures
            r as int == self.trunc(),
    {
        if self.neg {
            -(self.ipart as i64)
        } else {
            self.ipart as i64
        }
    }

    /// Executable rounding to the nearest integer, half away from zero.
    pub fn round_i64(&self) -> (r: i64)
        requires
            self.wf(),
        ensures
            r as int == self.round(),
    {
        let carry: u64 = if self.flen > 0 {
            let scale = pow10_u64((self.flen - 1) as u8);
            if self.fpart / scale >= 5 {
                1
            } else {
                0
            }
        } else {
            0
        };
        let mag: u64 = self.ipart + carry;
        if self.neg {
            -(mag as i64)
        } else {
            mag as i64
        }
    }
}

/// Executable ten-to-the-`n` for the small exponents the crate needs.
pub fn pow10_u64(n: u8) -> (r: u64)
    requires
        n <= 15,
    ensures
        r as nat == pow10(n as nat),
        r >= 1,
{
    let mut acc: u64 = 1;
    let mut i: u8 = 0;
    while i < n
        invariant
            i <= n <= 15,
            acc as nat == pow10(i as nat),
        decreases n - i,
    {
        proof {
            assert(pow10((i + 1) as nat) == 10 * pow10(i as nat));
            lemma_pow10_bound((i + 1) as nat);
        }
        acc = acc * 10;
        i = i + 1;
    }
    proof {
        lemma_pow10_pos(n as nat);
    }
    acc
}

/// `10^15` written out, for bounds on the parts of a coordinate.
pub proof fn lemma_pow10_15()
    ensures
        pow10(15) == 1000000000000000,
{
    reveal_with_fuel(pow10, 17);
}

/// `pow10` is at most `10^15` for exponents up to 15 (so it fits in `u64`).
pub proof fn lemma_pow10_bound(n: nat)
    requires
        n <= 15,
    ensures
        pow10(n) <= 1000000000000000,
{
    lemma_pow10_mono(n, 15);
    lemma_pow10_15();
}

/// `pow10` is monotone in its exponent.
pub proof fn lemma_pow10_mono(a: nat, b: nat)
    requires
        a <= b,
    ensures
        pow10(a) <= pow10(b),
    decreases b,
{
    if a < b {
        lemma_pow10_mono(a, (b - 1) as nat);
        assert(pow10(b) == 10 * pow10((b - 1) as nat));
        assert(pow10((b - 1) as nat) >= 1) by {
            lemma_pow10_pos((b - 1) as nat);
        }
    }
}

/// `pow10` is always positive.
pub proof fn lemma_pow10_pos(n: nat)
    ensures
        pow10(n) >= 1,
    decreases n,
{
    if n > 0 {
        lemma_pow10_pos((n - 1) as nat);
    }
}

/// Reading one more digit multiplies the value by ten and adds the digit.
pub proof fn lemma_digits_val_take_succ(s: Seq<u8>, j: int)
    requires
        0 <= j < s.len(),
    ensures
        digits_val(s.take(j + 1)) == digits_val(s.take(j)) * 10 + digit_val(s[j]),
{
    assert(s.take(j + 1).drop_last() =~= s.take(j));
    assert(s.take(j + 1).last() == s[j]);
}

/// Up to the digit count, zero-padding is just a prefix.
pub proof fn lemma_zpad_prefix(ds: Seq<u8>, n: nat)
    requires
        n <= ds.len(),
    ensures
        zpad(ds, n) == ds.take(n as int),
{
    assert(zpad(ds, n) =~= ds.take(n as int));
}

/// One more padded position multiplies the value by ten and adds the digit
/// at that position (an ASCII zero past the end).
pub proof fn lemma_zpad_succ(ds: Seq<u8>, n: nat)
    ensures
        digits_val(zpad(ds, n + 1)) == digits_val(zpad(ds, n)) * 10 + digit_val(
            if n < ds.len() {
                ds[n as int]
            } else {
                48u8
            },
        ),
{
    assert(zpad(ds, n + 1).drop_last() =~= zpad(ds, n));
}

/// Padding zeros past the digits multiplies the value by a power of ten.
pub proof fn lemma_zpad_shift(ds: Seq<u8>, k: nat, m: nat)
    requires
        ds.len() <= k <= m,
    ensures
        digits_val(zpad(ds, m)) == digits_val(zpad(ds, k)) * pow10((m - k) as nat),
    decreases m - k,
{
    if m == k {
        assert(pow10(0) == 1);
        assert(digits_val(zpad(ds, k)) * 1 == digits_val(zpad(ds, k)));
    } else {
        lemma_zpad_shift(ds, k, (m - 1) as nat);
        lemma_zpad_succ(ds, (m - 1) as nat);
        assert(digit_val(48u8) == 0);
        let v = digits_val(zpad(ds, k));
        let p = pow10((m - 1 - k) as nat);
        assert(digits_val(zpad(ds, (m - 1) as nat)) == v * p);
        assert(digits_val(zpad(ds, m)) == digits_val(zpad(ds, (m - 1) as nat)) * 10 + 0);
        assert(pow10((m - k) as nat) == 10 * pow10((m - k - 1) as nat));
        assert((m - k - 1) as nat == (m - 1 - k) as nat);
        assert((v * p) * 10 == v * (10 * p)) by (nonlinear_arith);
        assert(digits_val(zpad(ds, m)) == v * (10 * p));
    }
}

/// A value at or past the cap stays capped under further padding.
pub proof fn lemma_cap_stays(ds: Seq<u8>, k: nat, m: nat)
    requires
        ds.len() <= k <= m,
        digits_val(zpad(ds, k)) >= INT_CAP,
    ensures
        digits_val(zpad(ds, m)) >= INT_CAP,
{
    lemma_zpad_shift(ds, k, m);
    let v = digits_val(zpad(ds, k));
    let p = pow10((m - k) as nat);
    lemma_pow10_pos((m - k) as nat);
    assert(v * p >= v * 1) by (nonlinear_arith)
        requires
            p >= 1,
            v >= 0,
    ;
}

/// A scanned run of digits with at most one dot is a mantissa; its dot
/// position and digit extraction are as the scan recorded them.
proof fn lemma_scanned_mantissa(s: Seq<u8>, off: int, end: int, has_dot: bool, pp: int)
    requires
        0 <= off <= end <= s.len(),
        forall|x: int| off <= x < end ==> is_digit(#[trigger] s[x]) || s[x] == 46,
        has_dot ==> off <= off + pp < end && s[off + pp] == 46,
        has_dot ==> forall|x: int| off <= x < end && x != off + pp ==> is_digit(#[trigger] s[x]),
        !has_dot ==> forall|x: int| off <= x < end ==> is_digit(#[trigger] s[x]),
        (if has_dot {
            end - off - 1
        } else {
            end - off
        }) >= 1,
    ensures
        is_mantissa(s.subrange(off, end)),
        dot_pos(s.subrange(off, end)) == (if has_dot {
            pp
        } else {
            end - off
        }),
        mant_digits(s.subrange(off, end)) == (if has_dot {
            s.subrange(off, off + pp) + s.subrange(off + pp + 1, end)
        } else {
            s.subrange(off, end)
        }),
{
    let m = s.subrange(off, end);
    assert forall|i: int, j: int| 0 <= i < j < m.len() && m[i] == 46 implies m[j] != 46 by {
        if m[i] == 46 && m[j] == 46 {
            if has_dot {
                if i != pp {
                    assert(is_digit(s[off + i]));
                } else {
                    assert(is_digit(s[off + j]));
                }
            } else {
                assert(is_digit(s[off + i]));
            }
        }
    }
    if has_dot {
        if pp == 0 {
            assert(is_digit(m[1]));
        } else {
            assert(is_digit(m[0]));
        }
        assert(m[pp] == 46);
        assert(is_mantissa(m));
        let q = choose|i: int| 0 <= i < m.len() && m[i] == 46;
        if q != pp {
            assert(is_digit(s[off + q]));
        }
        assert(dot_pos(m) == pp);
        assert(m.take(pp) =~= s.subrange(off, off + pp));
        assert(m.skip(pp + 1) =~= s.subrange(off + pp + 1, end));
    } else {
        assert(is_digit(m[0]));
        assert(is_mantissa(m));
        assert forall|i: int| 0 <= i < m.len() implies m[i] != 46 by {
            assert(is_digit(s[off + i]));
        }
        assert(dot_pos(m) == m.len());
    }
}

/// The body of a literal without an exponent part: the scanned facts make
/// it a mantissa, and fix its dot position and digits.
proof fn lemma_body_no_exp(b: Seq<u8>, has_dot: bool, pp: int)
    requires
        forall|x: int| 0 <= x < b.len() ==> is_digit(#[trigger] b[x]) || b[x] == 46,
        has_dot ==> 0 <= pp < b.len() && b[pp] == 46,
        has_dot ==> forall|x: int| 0 <= x < b.len() && x != pp ==> is_digit(#[trigger] b[x]),
        !has_dot ==> forall|x: int| 0 <= x < b.len() ==> is_digit(#[trigger] b[x]),
        (if has_dot {
            b.len() - 1
        } else {
            b.len() as int
        }) >= 1,
    ensures
        is_mantissa(b),
        !has_exp(b),
        mant_of(b) == b,
        exp_of(b) == 0,
        dot_pos(b) == (if has_dot {
            pp
        } else {
            b.len() as int
        }),
        mant_digits(b) == (if has_dot {
            b.take(pp) + b.skip(pp + 1)
        } else {
            b
        }),
{
    assert(b.subrange(0, b.len() as int) =~= b);
    lemma_scanned_mantissa(b, 0, b.len() as int, has_dot, pp);
    assert(!has_exp(b)) by {
        if has_exp(b) {
            let k = choose|k: int| exp_split_at(b, k);
            assert(is_digit(b[k]) || b[k] == 46);
        }
    }
    if has_dot {
        assert(b.take(pp) =~= b.subrange(0, pp));
        assert(b.skip(pp + 1) =~= b.subrange(pp + 1, b.len() as int));
    }
}

/// The body of a literal with an exponent part: the split sits at the
/// marker, and the mantissa, its dot position and digits, and the exponent
/// are as scanned.
proof fn lemma_body_with_exp(b: Seq<u8>, msp: int, has_dot: bool, pp: int)
    requires
        0 <= msp < b.len(),
        is_exp_marker(b[msp]),
        forall|x: int| 0 <= x < msp ==> is_digit(#[trigger] b[x]) || b[x] == 46,
        has_dot ==> 0 <= pp < msp && b[pp] == 46,
        has_dot ==> forall|x: int| 0 <= x < msp && x != pp ==> is_digit(#[trigger] b[x]),
        !has_dot ==> forall|x: int| 0 <= x < msp ==> is_digit(#[trigger] b[x]),
        (if has_dot {
            msp - 1
        } else {
            msp
        }) >= 1,
        is_exp_tail(b.skip(msp + 1)),
    ensures
        has_exp(b),
        exp_split(b) == msp,
        mant_of(b) == b.subrange(0, msp),
        is_mantissa(b.subrange(0, msp)),
        dot_pos(b.subrange(0, msp)) == (if has_dot {
            pp
        } else {
            msp
        }),
        mant_digits(b.subrange(0, msp)) == (if has_dot {
            b.subrange(0, pp) + b.subrange(pp + 1, msp)
        } else {
            b.subrange(0, msp)
        }),
        exp_mag(b) == (if digits_val(strip_sign(b.skip(msp + 1))) > EXP_CAP {
            EXP_CAP as nat
        } else {
            digits_val(strip_sign(b.skip(msp + 1)))
        }),
        exp_is_neg(b) == (b.skip(msp + 1)[0] == 45),
{
    lemma_scanned_mantissa(b, 0, msp, has_dot, pp);
    assert(b.take(msp) =~= b.subrange(0, msp));
    assert(exp_split_at(b, msp));
    assert(has_exp(b));
    assert(exp_split(b) == msp) by {
        let k = choose|k: int| exp_split_at(b, k);
        lemma_exp_split_unique(b, k, msp);
    }
    let t = b.skip(msp + 1);
    if !(t.len() >= 1 && is_sign(t[0])) {
        assert(t.len() >= 1);
    }
}

/// Parses the exponent part of a literal (everything after its marker) and
/// assembles the coordinate. `mstop` is the marker's position; the mantissa
/// before it has already been scanned into `ds`.
#[verifier::loop_isolation(false)]
#[verifier::rlimit(100)]
fn parse_exp_part(
    s: &[u8],
    off: usize,
    mstop: usize,
    neg: bool,
    ds: &Vec<u8>,
    has_dot: bool,
    pp: usize,
) -> (r: Option<Coord>)
    requires
        off <= mstop < s@.len(),
        off as int == (if s@.len() >= 1 && is_sign(s@[0]) {
            1int
        } else {
            0int
        }),
        neg == (s@.len() >= 1 && s@[0] == 45),
        is_exp_marker(s@[mstop as int]),
        forall|x: int| off <= x < mstop ==> is_digit(#[trigger] s@[x]) || s@[x] == 46,
        has_dot ==> off + pp < mstop && s@[off + pp] == 46,
        has_dot ==> forall|x: int|
            off <= x < mstop && x != off + pp ==> is_digit(#[trigger] s@[x]),
        !has_dot ==> forall|x: int| off <= x < mstop ==> is_digit(#[trigger] s@[x]),
        ds@ == (if has_dot {
            s@.subrange(off as int, off + pp) + s@.subrange(off + pp + 1, mstop as int)
        } else {
            s@.subrange(off as int, mstop as int)
        }),
        forall|x: int| 0 <= x < ds@.len() ==> is_digit(#[trigger] ds@[x]),
        ds@.len() >= 1,
    ensures
        r is Some <==> is_number(s@),
        is_number(s@) ==> r == Some(coord_of(s@)) && coord_of(s@).wf(),
{
    let n: usize = s.len();
    let ghost b: Seq<u8> = strip_sign(s@);
    let ghost msp: int = mstop - off;
    proof {
        reveal(is_number);
        reveal(coord_of);
        assert(b =~= s@.skip(off as int));
        assert(is_exp_marker(b[msp]));
        assert(!is_mantissa(b)) by {
            assert(!(is_digit(b[msp]) || b[msp] == 46));
        }
        assert forall|k: int| exp_split_at(b, k) implies k == msp by {
            if k < msp {
                assert(b[k] == s@[k + off]);
                assert(is_digit(b[k]) || b[k] == 46);
            } else if k > msp {
                assert(b.take(k)[msp] == b[msp]);
            }
        }
    }
    let mut i: usize = mstop + 1;
    let mut e_neg = false;
    if i < n && (s[i] == 43 || s[i] == 45) {
        e_neg = s[i] == 45;
        i = i + 1;
    }
    let estart: usize = i;
    if i == n {
        proof {
            let t = b.skip(msp + 1);
            if t.len() >= 1 {
                assert(t[0] == s@[mstop as int + 1]);
            }
            assert(!is_exp_tail(t));
            assert(!has_exp(b)) by {
                if has_exp(b) {
                    let k = choose|k: int| exp_split_at(b, k);
                    assert(k == msp);
                }
            }
        }
        return None;
    }
    let mut emag: u64 = 0;
    while i < n
        invariant
            estart <= i <= n,
            forall|x: int| estart <= x < i ==> is_digit(#[trigger] s@[x]),
            emag as nat == (if digits_val(s@.subrange(estart as int, i as int)) > EXP_CAP {
                EXP_CAP as nat
            } else {
                digits_val(s@.subrange(estart as int, i as int))
            }),
            emag <= EXP_CAP,
        decreases n - i,
    {
        if !(48 <= s[i] && s[i] <= 57) {
            proof {
                assert(!has_exp(b)) by {
                    if has_exp(b) {
                        let k = choose|k: int| exp_split_at(b, k);
                        assert(k == msp);
                        let t = b.skip(msp + 1);
                        assert(is_exp_tail(t));
                        let x = i - mstop - 1;
                        assert(t[x as int] == s@[i as int]);
                        if t.len() >= 1 && is_sign(t[0]) {
                            assert(t[0] == s@[mstop as int + 1]);
                            assert(t.skip(1)[x as int - 1] == t[x as int]);
                            assert(is_digit(t[x as int]));
                        } else {
                            assert(is_digit(t[x as int]));
                        }
                    }
                }
            }
            return None;
        }
        let ghost v = digits_val(s@.subrange(estart as int, i as int));
        let d: u8 = s[i] - 48;
        let next: u64 = emag * 10 + d as u64;
        emag = if next > EXP_CAP {
            EXP_CAP
        } else {
            next
        };
        proof {
            assert(s@.subrange(estart as int, i as int + 1).drop_last() =~= s@.subrange(
                estart as int,
                i as int,
            ));
            assert(s@.subrange(estart as int, i as int + 1).last() == s@[i as int]);
            if v > EXP_CAP {
                assert(v * 10 + digit_val(s@[i as int]) > EXP_CAP);
            }
        }
        i = i + 1;
    }
    proof {
        let t = b.skip(msp + 1);
        assert(t =~= s@.subrange(mstop as int + 1, n as int));
        assert(is_exp_tail(t)) by {
            if estart > mstop + 1 {
                assert(t[0] == s@[mstop as int + 1]);
                assert(is_sign(t[0]));
                assert(t.skip(1) =~= s@.subrange(estart as int, n as int));
            } else {
                assert(t[0] == s@[estart as int]);
            }
        }
        assert forall|x: int| 0 <= x < b.len() && x < msp implies (is_digit(b[x]) || b[x]
            == 46) by {
            assert(b[x] == s@[x + off]);
        }
        if has_dot {
            assert(b[pp as int] == s@[off + pp]);
            assert forall|x: int| 0 <= x < msp && x != pp as int implies is_digit(b[x]) by {
                assert(b[x] == s@[x + off]);
            }
        } else {
            assert forall|x: int| 0 <= x < msp implies is_digit(b[x]) by {
                assert(b[x] == s@[x + off]);
            }
        }
        lemma_body_with_exp(b, msp, has_dot, pp as int);
        assert(b.subrange(0, msp) =~= s@.subrange(off as int, mstop as int));
        if has_dot {
            assert(b.subrange(0, pp as int) =~= s@.subrange(off as int, off + pp));
            assert(b.subrange(pp as int + 1, msp) =~= s@.subrange(off + pp + 1, mstop as int));
        }
        assert(mant_digits(mant_of(b)) == ds@);
        assert(strip_sign(t) =~= s@.subrange(estart as int, n as int));
        assert(exp_is_neg(b) == e_neg) by {
            if estart > mstop + 1 {
                assert(t[0] == s@[mstop as int + 1]);
            } else {
                assert(t[0] == s@[estart as int]);
                assert(is_digit(t[0]));
            }
        }
    }
    let pu: usize = if has_dot {
        pp
    } else {
        ds.len()
    };
    let c = assemble_coord(neg, ds, pu, e_neg, emag);
    proof {
        assert(c == coord_of(s@));
    }
    Some(c)
}

/// Parses one coordinate literal: an optional sign, a mantissa of digits
/// with at most one dot, and an optional exponent part. Returns the parsed
/// coordinate exactly when the bytes form such a literal.
#[verifier::loop_isolation(false)]
#[verifier::rlimit(100)]
pub fn parse_coord(s: &[u8]) -> (r: Option<Coord>)
    ensures
        r is Some <==> is_number(s@),
        is_number(s@) ==> r == Some(coord_of(s@)) && coord_of(s@).wf(),
{
    let n: usize = s.len();
    let mut i: usize = 0;
    let mut neg = false;
    if n > 0 && (s[0] == 43 || s[0] == 45) {
        neg = s[0] == 45;
        i = 1;
    }
    let off: usize = i;
    let ghost b: Seq<u8> = strip_sign(s@);
    proof {
        reveal(is_number);
        reveal(coord_of);
        assert(b =~= s@.skip(off as int));
    }
    let mut ds: Vec<u8> = Vec::new();
    let mut has_dot = false;
    let mut pp: usize = 0;
    while i < n && (48 <= s[i] && s[i] <= 57 || s[i] == 46)
        invariant
            off <= i <= n,
            forall|x: int| off <= x < i ==> is_digit(#[trigger] s@[x]) || s@[x] == 46,
            has_dot ==> off + pp < i && s@[off + pp] == 46,
            has_dot ==> forall|x: int|
                off <= x < i && x != off + pp ==> is_digit(#[trigger] s@[x]),
            !has_dot ==> forall|x: int| off <= x < i ==> is_digit(#[trigger] s@[x]),
            ds@ == (if has_dot {
                s@.subrange(off as int, off + pp) + s@.subrange(off + pp + 1, i as int)
            } else {
                s@.subrange(off as int, i as int)
            }),
            forall|x: int| 0 <= x < ds@.len() ==> is_digit(#[trigger] ds@[x]),
        decreases n - i,
    {
        let c = s[i];
        if c == 46 {
            if has_dot {
                proof {
                    assert(b[pp as int] == 46);
                    assert(b[i - off] == 46);
                    assert(!is_mantissa(b));
                    assert(!has_exp(b)) by {
                        if has_exp(b) {
                            let k = choose|k: int| exp_split_at(b, k);
                            if k < i - off {
                                assert(is_digit(b[k]) || b[k] == 46);
                            } else {
                                assert(b.take(k)[pp as int] == 46);
                                assert(b.take(k)[i - off] == 46);
                            }
                        }
                    }
                }
                return None;
            }
            has_dot = true;
            pp = ds.len();
            proof {
                assert(pp == i - off);
                assert(s@.subrange(off as int, off + pp) =~= ds@);
                assert(s@.subrange(off + pp + 1, i as int + 1) =~= Seq::<u8>::empty());
                assert(ds@ == s@.subrange(off as int, off + pp) + s@.subrange(
                    off + pp + 1,
                    i as int + 1,
                ));
            }
        } else {
            ds.push(c);
            proof {
                if has_dot {
                    assert(s@.subrange(off + pp + 1, i as int + 1) =~= s@.subrange(
                        off + pp + 1,
                        i as int,
                    ).push(s@[i as int]));
                } else {
                    assert(s@.subrange(off as int, i as int + 1) =~= s@.subrange(
                        off as int,
                        i as int,
                    ).push(s@[i as int]));
                }
            }
        }
        i = i + 1;
    }
    let dslen: usize = ds.len();
    if dslen == 0 {
        proof {
            assert(!is_mantissa(b)) by {
                if i < n {
                    assert(!(is_digit(b[i - off]) || b[i - off] == 46));
                } else {
                    if is_mantissa(b) {
                        let q = choose|q: int| 0 <= q < b.len() && is_digit(b[q]);
                        assert(is_digit(s@[off + q]));
                    }
                }
            }
            assert(!has_exp(b)) by {
                if has_exp(b) {
                    let k = choose|k: int| exp_split_at(b, k);
                    assert(k >= i - off);
                    if i < n {
                        if k == i - off {
                            assert(!is_exp_marker(s@[i as int]));
                        } else {
                            assert(b.take(k)[i - off] == b[i - off]);
                            assert(!(is_digit(b[i - off]) || b[i - off] == 46));
                        }
                    }
                    if is_mantissa(b.take(k)) {
                        let q = choose|q: int|
                            0 <= q < b.take(k).len() && is_digit(b.take(k)[q]);
                        assert(q < i - off);
                        assert(is_digit(s@[off + q]));
                    }
                }
            }
        }
        return None;
    }
    if i == n {
        // no exponent part: the whole body is the mantissa
        proof {
            assert(b =~= s@.subrange(off as int, n as int));
            assert forall|x: int| 0 <= x < b.len() implies (is_digit(b[x]) || b[x] == 46) by {
                assert(b[x] == s@[x + off]);
            }
            if has_dot {
                assert(b[pp as int] == s@[off + pp]);
                assert forall|x: int|
                    0 <= x < b.len() && x != pp as int implies is_digit(b[x]) by {
                    assert(b[x] == s@[x + off]);
                }
            } else {
                assert forall|x: int| 0 <= x < b.len() implies is_digit(b[x]) by {
                    assert(b[x] == s@[x + off]);
                }
            }
            lemma_body_no_exp(b, has_dot, pp as int);
            if has_dot {
                assert(b.take(pp as int) =~= s@.subrange(off as int, off + pp));
                assert(b.skip(pp as int + 1) =~= s@.subrange(off + pp + 1, n as int));
            }
            assert(mant_digits(mant_of(b)) == ds@);
        }
        let pu: usize = if has_dot {
            pp
        } else {
            dslen
        };
        let c = assemble_coord(neg, &ds, pu, false, 0);
        proof {
            assert(c == coord_of(s@));
        }
        return Some(c);
    }
    // the mantissa ended on a byte that can only start the exponent part
    if !(s[i] == 101 || s[i] == 69) {
        proof {
            assert(!(is_digit(b[i - off]) || b[i - off] == 46));
            assert(!is_mantissa(b));
            assert(!has_exp(b)) by {
                if has_exp(b) {
                    let k = choose|k: int| exp_split_at(b, k);
                    if k < i - off {
                        assert(is_digit(b[k]) || b[k] == 46);
                    } else if k == i - off {
                        assert(!is_exp_marker(b[k]));
                    } else {
                        assert(b.take(k)[i - off] == b[i - off]);
                    }
                }
            }
        }
        return None;
    }
    parse_exp_part(s, off, i, neg, &ds, has_dot, pp)
}

/// Builds the stored coordinate parts from the scanned mantissa digits
/// `ds`, the digit count `pp` before the decimal point, and the exponent.
fn assemble_coord(neg: bool, ds: &Vec<u8>, pp: usize, e_neg: bool, emag: u64) -> (c: Coord)
    requires
        pp <= ds@.len(),
        forall|i: int| 0 <= i < ds@.len() ==> is_digit(#[trigger] ds@[i]),
        emag <= EXP_CAP,
    ensures
        ({
            let sp = pp as int + (if e_neg {
                -(emag as int)
            } else {
                emag as int
            });
            &&& c.neg == neg
            &&& c.ipart as nat == int_part_val(ds@, sp)
            &&& c.flen as nat == frac_len_of(ds@, sp)
            &&& c.fpart as nat == frac_val(ds@, sp)
            &&& c.wf()
        }),
{
    let len: usize = ds.len();
    let sp_i: i128 = pp as i128 + (if e_neg {
        -(emag as i128)
    } else {
        emag as i128
    });
    // integer part: the digits before the decimal point, then padding zeros
    let stop: usize = if sp_i <= 0 {
        0
    } else if sp_i < len as i128 {
        sp_i as usize
    } else {
        len
    };
    let mut acc: u64 = 0;
    let mut j: usize = 0;
    while j < stop
        invariant
            j <= stop <= len == ds@.len(),
            forall|i: int| 0 <= i < ds@.len() ==> is_digit(#[trigger] ds@[i]),
            acc as nat == cap_int(digits_val(ds@.take(j as int))),
        decreases stop - j,
    {
        let ghost v = digits_val(ds@.take(j as int));
        let d: u8 = ds[j] - 48;
        let next: u64 = acc * 10 + d as u64;
        acc = if next > INT_CAP {
            INT_CAP
        } else {
            next
        };
        proof {
            lemma_digits_val_take_succ(ds@, j as int);
            if v > INT_CAP {
                assert(v * 10 + digit_val(ds@[j as int]) > INT_CAP);
            }
        }
        j = j + 1;
    }
    if sp_i > len as i128 {
        proof {
            assert(ds@.take(len as int) =~= ds@);
            lemma_zpad_prefix(ds@, len as nat);
        }
        let mut k: i128 = len as i128;
        while k < sp_i && acc != 0 && acc < INT_CAP
            invariant
                len as i128 <= k <= sp_i,
                len == ds@.len(),
                acc as nat == cap_int(digits_val(zpad(ds@, k as nat))),
            decreases sp_i - k,
        {
            let ghost v = digits_val(zpad(ds@, k as nat));
            let next: u64 = acc * 10;
            acc = if next > INT_CAP {
                INT_CAP
            } else {
                next
            };
            proof {
                lemma_zpad_succ(ds@, k as nat);
                if v > INT_CAP {
                    assert(v * 10 > INT_CAP);
                }
            }
            k = k + 1;
        }
        proof {
            let spn = sp_i as nat;
            if k < sp_i {
                if acc == 0 {
                    lemma_zpad_shift(ds@, k as nat, spn);
                } else {
                    assert(digits_val(zpad(ds@, k as nat)) >= INT_CAP);
                    lemma_cap_stays(ds@, k as nat, spn);
                }
            }
        }
    } else {
        proof {
            if sp_i > 0 {
                lemma_zpad_prefix(ds@, sp_i as nat);
            }
        }
    }
    // fraction: up to FRAC_DIGITS digits starting at the decimal point
    let flen_u: u8 = if sp_i >= len as i128 {
        0
    } else {
        let avail: i128 = len as i128 - sp_i;
        if avail >= FRAC_DIGITS as i128 {
            FRAC_DIGITS
        } else {
            avail as u8
        }
    };
    let ghost fwin = frac_window(ds@, sp_i as int);
    proof {
        assert(flen_u as nat == frac_len_of(ds@, sp_i as int));
        assert(fwin.len() == flen_u as nat);
    }
    let mut facc: u64 = 0;
    let mut t: u8 = 0;
    while t < flen_u
        invariant
            t <= flen_u <= FRAC_DIGITS,
            len == ds@.len(),
            forall|i: int| 0 <= i < ds@.len() ==> is_digit(#[trigger] ds@[i]),
            fwin == frac_window(ds@, sp_i as int),
            fwin.len() == flen_u as nat,
            facc as nat == digits_val(fwin.take(t as int)),
            (facc as nat) < pow10(t as nat),
        decreases flen_u - t,
    {
        let idx: i128 = sp_i + t as i128;
        let d: u8 = if idx >= 0 && idx < len as i128 {
            ds[idx as usize] - 48
        } else {
            0
        };
        proof {
            lemma_digits_val_take_succ(fwin, t as int);
            assert(fwin[t as int] == if 0 <= sp_i + t < ds@.len() {
                ds@[sp_i as int + t]
            } else {
                48u8
            });
            assert(digit_val(fwin[t as int]) == d as nat);
            assert(pow10((t + 1) as nat) == 10 * pow10(t as nat));
            lemma_pow10_bound((t + 1) as nat);
        }
        facc = facc * 10 + d as u64;
        t = t + 1;
    }
    proof {
        assert(fwin.take(flen_u as int) =~= fwin);
        lemma_pow10_mono(flen_u as nat, FRAC_DIGITS as nat);
    }
    Coord { neg, ipart: acc, fpart: facc, flen: flen_u }
}


/// The decimal digits of `n`, most significant first.
pub open spec fn dec_digits(n: nat) -> Seq<u8>
    decreases n,
{
    if n < 10 {
        seq![(48 + n) as u8]
    } else {
        dec_digits(n / 10).push((48 + (n % 10)) as u8)
    }
}

/// The decimal digits of `n` written in exactly `w` places, leading zeros
/// kept.
pub open spec fn dec_pad(n: nat, w: nat) -> Seq<u8>
    decreases w,
{
    if w == 0 {
        Seq::empty()
    } else {
        dec_pad(n / 10, (w - 1) as nat).push((48 + (n % 10)) as u8)
    }
}

/// `dec_digits` writes digits whose value reads back as `n`.
pub proof fn lemma_dec_digits_props(n: nat)
    ensures
        dec_digits(n).len() >= 1,
        forall|i: int| 0 <= i < dec_digits(n).len() ==> is_digit(#[trigger] dec_digits(n)[i]),
        digits_val(dec_digits(n)) == n,
    decreases n,
{
    if n < 10 {
        let s = dec_digits(n);
        assert(s.drop_last() =~= Seq::<u8>::empty());
        assert(s.last() == (48 + n) as u8);
        assert(digits_val(Seq::<u8>::empty()) == 0);
        assert(digits_val(s) == digits_val(s.drop_last()) * 10 + digit_val(s.last()));
    } else {
        lemma_dec_digits_props(n / 10);
        let s = dec_digits(n);
        assert(s.drop_last() =~= dec_digits(n / 10));
        assert(s.last() == (48 + (n % 10)) as u8);
        assert forall|i: int| 0 <= i < s.len() implies is_digit(#[trigger] s[i]) by {
            if i < s.len() - 1 {
                assert(s[i] == dec_digits(n / 10)[i]);
            }
        }
    }
}

/// `dec_pad` writes `w` digits whose value reads back as `n`, for `n`
/// below `10^w`.
pub proof fn lemma_dec_pad_props(n: nat, w: nat)
    requires
        n < pow10(w),
    ensures
        dec_pad(n, w).len() == w,
        forall|i: int| 0 <= i < w ==> is_digit(#[trigger] dec_pad(n, w)[i]),
        digits_val(dec_pad(n, w)) == n,
    decreases w,
{
    if w == 0 {
    } else {
        assert(pow10(w) == 10 * pow10((w - 1) as nat));
        assert(n / 10 < pow10((w - 1) as nat)) by (nonlinear_arith)
            requires
                n < 10 * pow10((w - 1) as nat),
        ;
        lemma_dec_pad_props(n / 10, (w - 1) as nat);
        let s = dec_pad(n, w);
        assert(s.drop_last() =~= dec_pad(n / 10, (w - 1) as nat));
        assert(s.last() == (48 + (n % 10)) as u8);
        assert forall|i: int| 0 <= i < w implies is_digit(#[trigger] s[i]) by {
            if i < w - 1 {
                assert(s[i] == dec_pad(n / 10, (w - 1) as nat)[i]);
            }
        }
    }
}

/// How one coordinate is written out: an optional minus sign, the integer
/// part, and (when there are fraction digits) a dot and the fraction.
pub open spec fn format_coord_spec(c: Coord) -> Seq<u8> {
    let sign = if c.neg {
        seq![45u8]
    } else {
        Seq::<u8>::empty()
    };
    if c.flen == 0 {
        sign + dec_digits(c.ipart as nat)
    } else {
        sign + dec_digits(c.ipart as nat) + seq![46u8] + dec_pad(c.fpart as nat, c.flen as nat)
    }
}

/// Appends the contents of `src` to `out`.
pub(crate) fn push_all(out: &mut Vec<u8>, src: &Vec<u8>)
    ensures
        final(out)@ == old(out)@ + src@,
{
    let mut i: usize = 0;
    while i < src.len()
        invariant
            i <= src@.len(),
            out@ == old(out)@ + src@.take(i as int),
        decreases src@.len() - i,
    {
        out.push(src[i]);
        proof {
            assert(old(out)@ + src@.take(i as int + 1) =~= (old(out)@ + src@.take(i as int)).push(
                src@[i as int],
            ));
        }
        i = i + 1;
    }
    proof {
        assert(src@.take(src@.len() as int) =~= src@);
    }
}

/// Writes the decimal digits of `n`.
fn dec_digits_vec(n: u64) -> (r: Vec<u8>)
    ensures
        r@ == dec_digits(n as nat),
{
    let mut tmp: Vec<u8> = Vec::new();
    tmp.push(48 + (n % 10) as u8);
    let mut cur: u64 = n / 10;
    proof {
        if cur > 0 {
            assert(dec_digits(n as nat) == dec_digits(n as nat / 10).push((48 + (n as nat % 10)) as u8));
            assert(dec_digits(n as nat) =~= dec_digits(cur as nat) + tmp@.reverse());
        } else {
            assert(dec_digits(n as nat) =~= tmp@.reverse());
        }
    }
    while cur > 0
        invariant
            cur > 0 ==> dec_digits(n as nat) == dec_digits(cur as nat) + tmp@.reverse(),
            cur == 0 ==> dec_digits(n as nat) == tmp@.reverse(),
            tmp@.len() >= 1,
        decreases cur,
    {
        let ghost tmp0 = tmp@;
        let d: u8 = 48 + (cur % 10) as u8;
        tmp.push(d);
        let prev: u64 = cur;
        cur = cur / 10;
        proof {
            assert(tmp@.reverse() =~= seq![d] + tmp0.reverse());
            if cur > 0 {
                assert(dec_digits(prev as nat) == dec_digits(cur as nat).push(d));
                assert(dec_digits(cur as nat).push(d) + tmp0.reverse() =~= dec_digits(cur as nat)
                    + (seq![d] + tmp0.reverse()));
            } else {
                assert(prev < 10);
                assert(dec_digits(prev as nat) == seq![d]);
                assert(seq![d] + tmp0.reverse() =~= dec_digits(prev as nat) + tmp0.reverse());
            }
        }
    }
    let mut out: Vec<u8> = Vec::new();
    let m: usize = tmp.len();
    let mut i: usize = 0;
    while i < m
        invariant
            i <= m == tmp@.len(),
            out@ == tmp@.reverse().take(i as int),
        decreases m - i,
    {
        out.push(tmp[m - 1 - i]);
        proof {
            assert(tmp@.reverse().take(i as int + 1) =~= tmp@.reverse().take(i as int).push(
                tmp@.reverse()[i as int],
            ));
        }
        i = i + 1;
    }
    proof {
        assert(tmp@.reverse().take(m as int) =~= tmp@.reverse());
    }
    out
}

/// Writes the decimal digits of `n` in exactly `w` places.
fn dec_pad_vec(n: u64, w: u8) -> (r: Vec<u8>)
    ensures
        r@ == dec_pad(n as nat, w as nat),
{
    let mut tmp: Vec<u8> = Vec::new();
    let mut cur: u64 = n;
    let mut k: u8 = 0;
    proof {
        assert(dec_pad(n as nat, w as nat) =~= dec_pad(cur as nat, (w - k) as nat)
            + tmp@.reverse());
    }
    while k < w
        invariant
            k <= w,
            dec_pad(n as nat, w as nat) == dec_pad(cur as nat, (w - k) as nat) + tmp@.reverse(),
        decreases w - k,
    {
        let ghost tmp0 = tmp@;
        let d: u8 = 48 + (cur % 10) as u8;
        tmp.push(d);
        let prev: u64 = cur;
        cur = cur / 10;
        k = k + 1;
        proof {
            assert(tmp@.reverse() =~= seq![d] + tmp0.reverse());
            assert(dec_pad(prev as nat, (w - k + 1) as nat) == dec_pad(cur as nat, (w - k) as nat)
                .push(d));
            assert(dec_pad(cur as nat, (w - k) as nat).push(d) + tmp0.reverse() =~= dec_pad(
                cur as nat,
                (w - k) as nat,
            ) + (seq![d] + tmp0.reverse()));
        }
    }
    proof {
        assert(dec_pad(cur as nat, 0) + tmp@.reverse() =~= tmp@.reverse());
    }
    let mut out: Vec<u8> = Vec::new();
    let m: usize = tmp.len();
    let mut i: usize = 0;
    while i < m
        invariant
            i <= m == tmp@.len(),
            out@ == tmp@.reverse().take(i as int),
        decreases m - i,
    {
        out.push(tmp[m - 1 - i]);
        proof {
            assert(tmp@.reverse().take(i as int + 1) =~= tmp@.reverse().take(i as int).push(
                tmp@.reverse()[i as int],
            ));
        }
        i = i + 1;
    }
    proof {
        assert(tmp@.reverse().take(m as int) =~= tmp@.reverse());
    }
    out
}

/// Writes one coordinate out as decimal text.
pub fn format_coord(c: &Coord) -> (r: Vec<u8>)
    requires
        c.wf(),
    ensures
        r@ == format_coord_spec(*c),
{
    let mut out: Vec<u8> = Vec::new();
    if c.neg {
        out.push(45);
    }
    let ip = dec_digits_vec(c.ipart);
    push_all(&mut out, &ip);
    if c.flen > 0 {
        let ghost before_dot = out@;
        out.push(46);
        proof {
            assert(out@ =~= before_dot + seq![46u8]);
        }
        let fp = dec_pad_vec(c.fpart, c.flen);
        push_all(&mut out, &fp);
        proof {
            assert(out@ =~= format_coord_spec(*c));
        }
    } else {
        proof {
            assert(out@ =~= format_coord_spec(*c));
        }
    }
    out
}


/// Round trip: a well-formed coordinate written out as decimal text is a
/// valid literal, and parses back to exactly itself. The written text also
/// contains no record or pair separators.
pub proof fn lemma_coord_roundtrip(c: Coord)
    requires
        c.wf(),
    ensures
        is_number(format_coord_spec(c)),
        coord_of(format_coord_spec(c)) == c,
        forall|i: int|
            0 <= i < format_coord_spec(c).len() ==> (#[trigger] format_coord_spec(c)[i]) != 44
                && format_coord_spec(c)[i] != 59,
{
    reveal(is_number);
    reveal(coord_of);
    let f = format_coord_spec(c);
    let ip = dec_digits(c.ipart as nat);
    let pad = dec_pad(c.fpart as nat, c.flen as nat);
    lemma_dec_digits_props(c.ipart as nat);
    lemma_dec_pad_props(c.fpart as nat, c.flen as nat);
    let bexp = if c.flen == 0 {
        ip
    } else {
        ip + seq![46u8] + pad
    };
    let b = strip_sign(f);
    if c.neg {
        assert(f[0] == 45);
        assert(b =~= bexp);
    } else {
        assert(f[0] == ip[0]);
        assert(is_digit(f[0]));
        assert(!is_sign(f[0]));
        assert(b =~= bexp);
    }
    let pp: int = ip.len() as int;
    assert forall|x: int| 0 <= x < b.len() implies (is_digit(#[trigger] b[x]) || b[x] == 46) by {
        if x < pp {
            assert(b[x] == ip[x]);
        } else if c.flen > 0 && x == pp {
            assert(b[x] == 46);
        } else {
            assert(b[x] == pad[x - pp - 1]);
        }
    }
    if c.flen > 0 {
        assert(b[pp] == 46);
        assert forall|x: int| 0 <= x < b.len() && x != pp implies is_digit(#[trigger] b[x]) by {
            if x < pp {
                assert(b[x] == ip[x]);
            } else {
                assert(b[x] == pad[x - pp - 1]);
            }
        }
        lemma_body_no_exp(b, true, pp);
        assert(b.take(pp) =~= ip);
        assert(b.skip(pp + 1) =~= pad);
        assert(mant_digits(b) == ip + pad);
    } else {
        assert forall|x: int| 0 <= x < b.len() implies is_digit(#[trigger] b[x]) by {
            assert(b[x] == ip[x]);
        }
        lemma_body_no_exp(b, false, 0);
        assert(mant_digits(b) == ip);
    }
    let ds = mant_digits(b);
    let sp: int = pp;
    assert(dot_pos(b) == sp);
    assert(mant_of(b) == b);
    assert(exp_of(b) == 0);
    // integer part reads back
    assert(ds.take(pp) =~= ip);
    lemma_zpad_prefix(ds, pp as nat);
    assert(int_part_val(ds, sp) == cap_int(digits_val(ip)));
    assert(cap_int(c.ipart as nat) == c.ipart as nat);
    // fraction length and digits read back
    assert(ds.len() == pp + c.flen);
    if c.flen == 0 {
        assert(frac_len_of(ds, sp) == 0);
        assert(frac_window(ds, sp) =~= Seq::<u8>::empty());
        assert(frac_val(ds, sp) == 0);
    } else {
        assert(frac_len_of(ds, sp) == c.flen as nat);
        assert forall|i: int| 0 <= i < c.flen as int implies frac_window(ds, sp)[i] == pad[i] by {
            assert(ds[sp + i] == pad[i]);
        }
        assert(frac_window(ds, sp) =~= pad);
        assert(frac_val(ds, sp) == c.fpart as nat);
    }
    // the sign bit reads back
    if !c.neg {
        assert(f[0] == ip[0]);
        assert(f[0] != 45);
    }
    assert(coord_of(f) == c);
    // no separators anywhere in the text
    assert forall|i: int| 0 <= i < f.len() implies (#[trigger] f[i]) != 44 && f[i] != 59 by {
        if c.neg && i == 0 {
            assert(f[i] == 45);
        } else {
            let x = if c.neg {
                i - 1
            } else {
                i
            };
            assert(f[i] == b[x]);
            assert(is_digit(b[x]) || b[x] == 46);
        }
    }
}

} // verus!
