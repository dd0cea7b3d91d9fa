//! Decimal amounts of the native asset, converted to its smallest unit.
use vstd::prelude::*;

verus! {

/// The most digits that a whole amount may have before its point; an amount
/// of ten to this many whole units or more is refused as too large.
pub const MAX_WHOLE_DIGITS: usize = 58;

/// Decimal places of the native asset; further decimals are cut off.
pub const NATIVE_DECIMALS: usize = 18;

/// Why an amount text was refused.
#[derive(Clone, Copy, Debug, PartialEq, Eq, Structural)]
pub enum AmountError {
    /// Not a plain decimal number.
    Malformed,
    /// The amount is zero in the smallest unit.
    NotPositive,
    /// The amount is ten to the `MAX_WHOLE_DIGITS` whole units or more.
    TooLarge,
}

pub open spec fn is_digit(c: char) -> bool {
    '0' <= c && c <= '9'
}

pub open spec fn digit_value(c: char) -> nat {
    ((c as u32) - ('0' as u32)) as nat
}

pub open spec fn all_digits(s: Seq<char>) -> bool {
    forall|i: int| 0 <= i < s.len() ==> is_digit(#[trigger] s[i])
}

/// The number that a string of decimal digits writes, most significant first.
pub open spec fn digits_value(s: Seq<char>) -> nat
    decreases s.len(),
{
    if s.len() == 0 {
        0
    } else {
        digits_value(s.drop_last()) * 10 + digit_value(s.last())
    }
}

pub open spec fn pow10(n: nat) -> nat
    decreases n,
{
    if n == 0 {
        1
    } else {
        10 * pow10((n - 1) as nat)
    }
}

/// A decimal number: digits with at most one '.', and at least one digit.
pub open spec fn is_amount_text(s: Seq<char>) -> bool {
    all_digits(s) && s.len() > 0 || exists|p: int|
        0 <= p < s.len() && s[p] == '.' && all_digits(#[trigger] s.take(p)) && all_digits(
            s.skip(p + 1),
        ) && s.len() > 1
}

/// Where the decimal point of an amount text stands (`s.len()` if it has none).
pub open spec fn point_index(s: Seq<char>) -> int {
    if all_digits(s) {
        s.len() as int
    } else {
        choose|p: int| 0 <= p < s.len() && s[p] == '.' && all_digits(#[trigger] s.take(p))
    }
}

/// The digits of an amount text with its point taken out.
pub open spec fn amount_digits(s: Seq<char>) -> Seq<char> {
    let p = point_index(s);
    if p < s.len() {
        s.take(p) + s.skip(p + 1)
    } else {
        s
    }
}

/// How many digits follow the point.
pub open spec fn fraction_len(s: Seq<char>) -> nat {
    let p = point_index(s);
    if p < s.len() {
        (s.len() - p - 1) as nat
    } else {
        0
    }
}

/// The amount in smallest units (eighteen decimals); digits past the
/// eighteenth decimal are cut off.
pub open spec fn amount_wei(s: Seq<char>) -> nat {
    digits_value(amount_digits(s)) * pow10(18) / pow10(fraction_len(s))
}

/// The whole units of an amount text: the number before its point.
pub open spec fn whole_units(s: Seq<char>) -> nat {
    digits_value(s.take(point_index(s)))
}

/// What `parse_amount` returns for a text.
pub open spec fn amount_result(s: Seq<char>) -> Result<nat, AmountError> {
    if !is_amount_text(s) {
        Err(AmountError::Malformed)
    } else if whole_units(s) >= pow10(MAX_WHOLE_DIGITS as nat) {
        Err(AmountError::TooLarge)
    } else if amount_wei(s) == 0 {
        Err(AmountError::NotPositive)
    } else {
        Ok(amount_wei(s))
    }
}

/// `parse_amount`'s result, read as a number.
pub open spec fn amount_outcome(r: Result<[u64; 4], AmountError>) -> Result<nat, AmountError> {
    match r {
        Ok(l) => Ok(limbs_value(l)),
        Err(e) => Err(e),
    }
}

/// The number that four little-endian 64-bit limbs hold.
pub open spec fn limbs_value(l: [u64; 4]) -> nat {
    (l[0] + l[1] * 0x1_0000_0000_0000_0000 + l[2] * 0x1_0000_0000_0000_0000_0000_0000_0000_0000
        + l[3] * 0x1_0000_0000_0000_0000_0000_0000_0000_0000_0000_0000_0000_0000) as nat
}

/// Relies on `ethers::utils::parse_ether`: on a text of digits with at most
/// one point it removes the point, reads the digits as a number, and scales
/// it by ten to the eighteen minus the number of decimals (cutting decimals
/// past the eighteenth). With at most fifty-eight digits before the point and
/// eighteen after, the product stays below 10^76 < 2^256, where the
/// multiplication would panic.
#[verifier::external_body]
fn parse_ether_limbs(text: &str) -> (r: Option<[u64; 4]>)
    requires
        is_amount_text(text@),
        point_index(text@) <= MAX_WHOLE_DIGITS,
        fraction_len(text@) <= NATIVE_DECIMALS,
    ensures
        r is Some && limbs_value(r->0) == amount_wei(text@),
{
    ethers::utils::parse_ether(text).ok().map(|v| v.0)
}

/// Whether `text` is a plain decimal number; on success, where its point is.
fn scan_amount(text: &str) -> (r: Option<usize>)
    ensures
        match r {
            Some(p) => is_amount_text(text@) && p == point_index(text@),
            None => !is_amount_text(text@),
        },
{
    let n = text.unicode_len();
    let mut point: usize = n;
    let mut i: usize = 0;
    while i < n
        invariant
            n == text@.len(),
            i <= n,
            point == n || point < i,
            point < n ==> text@[point as int] == '.',
            forall|j: int| 0 <= j < i && j != point ==> is_digit(#[trigger] text@[j]),
        decreases n - i,
    {
        let c = text.get_char(i);
        if c == '.' && point == n {
            point = i;
        } else if !('0' <= c && c <= '9') {
            proof {
                assert(!is_amount_text(text@)) by {
                    if all_digits(text@) {
                        assert(is_digit(text@[i as int]));
                    }
                    if exists|p: int|
                        0 <= p < text@.len() && text@[p] == '.' && all_digits(
                            #[trigger] text@.take(p),
                        ) && all_digits(text@.skip(p + 1)) {
                        let p = choose|p: int|
                            0 <= p < text@.len() && text@[p] == '.' && all_digits(
                                #[trigger] text@.take(p),
                            ) && all_digits(text@.skip(p + 1));
                        if i < p {
                            assert(text@.take(p)[i as int] == c);
                        } else if i > p {
                            assert(text@.skip(p + 1)[i - p - 1] == c);
                        } else {
                            assert(point < i);
                            assert(text@.take(p)[point as int] == '.');
                        }
                    }
                }
            }
            return None;
        }
        i = i + 1;
    }
    let ghost s = text@;
    if point == n {
        assert(all_digits(s));
        if n == 0 {
            return None;
        }
        return Some(point);
    }
    assert(all_digits(s.take(point as int)));
    assert(all_digits(s.skip(point + 1))) by {
        assert forall|j: int| 0 <= j < s.skip(point + 1).len() implies is_digit(
            #[trigger] s.skip(point + 1)[j],
        ) by {
            assert(s.skip(point + 1)[j] == s[point + 1 + j]);
        }
    }
    assert(!all_digits(s)) by {
        assert(!is_digit(s[point as int]));
    }
    if n == 1 {
        assert(!is_amount_text(s)) by {
            if exists|p: int|
                0 <= p < s.len() && s[p] == '.' && all_digits(#[trigger] s.take(p)) && all_digits(
                    s.skip(p + 1),
                ) && s.len() > 1 {
            }
        }
        return None;
    }
    assert(is_amount_text(s)) by {
        assert(all_digits(s.take(point as int)));
    }
    let ghost q = point_index(s);
    assert(q == point) by {
        if q < point {
            assert(s.take(point as int)[q] == s[q]);
        } else if q > point {
            assert(s.take(q)[point as int] == s[point as int]);
        }
    }
    Some(point)
}

proof fn lemma_pow10_add(a: nat, b: nat)
    ensures
        pow10(a + b) == pow10(a) * pow10(b),
        pow10(a) > 0,
    decreases b,
{
    lemma_pow10_positive(a);
    if b == 0 {
        assert(a + b == a);
        assert(pow10(b) == 1);
    } else {
        let b1 = (b - 1) as nat;
        lemma_pow10_add(a, b1);
        assert((a + b - 1) as nat == a + b1);
        let (pa, pb1, pab1) = (pow10(a) as int, pow10(b1) as int, pow10(a + b1) as int);
        assert(pow10(a + b) == 10 * pab1);
        assert(pow10(b) == 10 * pb1);
        assert(pab1 == pa * pb1);
        assert(10 * (pa * pb1) == pa * (10 * pb1)) by (nonlinear_arith);
    }
}

proof fn lemma_pow10_positive(n: nat)
    ensures
        pow10(n) > 0,
    decreases n,
{
    if n > 0 {
        lemma_pow10_positive((n - 1) as nat);
    }
}

/// Digits written one after another: the first part shifts by the second's length.
proof fn lemma_digits_concat(a: Seq<char>, b: Seq<char>)
    ensures
        digits_value(a + b) == digits_value(a) * pow10(b.len()) + digits_value(b),
    decreases b.len(),
{
    if b.len() == 0 {
        assert(a + b =~= a);
        assert(pow10(0) == 1);
        assert(digits_value(b) == 0);
    } else {
        let c = a + b;
        let b1 = b.drop_last();
        assert(c.drop_last() =~= a + b1);
        assert(c.last() == b.last());
        lemma_digits_concat(a, b1);
        let (x, p, y, d) = (
            digits_value(a) as int,
            pow10(b1.len()) as int,
            digits_value(b1) as int,
            digit_value(b.last()) as int,
        );
        assert(digits_value(a + b1) == x * p + y);
        assert(digits_value(c) == (x * p + y) * 10 + d);
        assert(digits_value(b) == y * 10 + d);
        assert(b1.len() == (b.len() - 1) as nat);
        assert(pow10(b.len()) == 10 * p);
        assert((x * p + y) * 10 + d == x * (10 * p) + (y * 10 + d)) by (nonlinear_arith);
    }
}

proof fn lemma_zeros_value(a: Seq<char>)
    requires
        forall|i: int| 0 <= i < a.len() ==> #[trigger] a[i] == '0',
    ensures
        digits_value(a) == 0,
    decreases a.len(),
{
    if a.len() > 0 {
        lemma_zeros_value(a.drop_last());
    }
}

proof fn lemma_digits_below(a: Seq<char>)
    requires
        all_digits(a),
    ensures
        digits_value(a) < pow10(a.len()),
    decreases a.len(),
{
    if a.len() > 0 {
        let a1 = a.drop_last();
        assert(all_digits(a1)) by {
            assert forall|i: int| 0 <= i < a1.len() implies is_digit(#[trigger] a1[i]) by {
                assert(a1[i] == a[i]);
            }
        }
        assert(is_digit(a[a.len() - 1]));
        lemma_digits_below(a1);
    }
}

proof fn lemma_leading_digit(a: Seq<char>)
    requires
        all_digits(a),
        a.len() > 0,
        a[0] != '0',
    ensures
        digits_value(a) >= pow10((a.len() - 1) as nat),
{
    let head = a.take(1);
    let rest = a.skip(1);
    assert(a =~= head + rest);
    lemma_digits_concat(head, rest);
    assert(head.drop_last() =~= Seq::<char>::empty());
    assert(is_digit(a[0]));
    assert(digits_value(head) >= 1);
    let (h, p, r) = (digits_value(head) as int, pow10(rest.len()) as int, digits_value(rest) as int);
    assert(h * p + r >= p) by (nonlinear_arith)
        requires
            h >= 1,
            p >= 0,
            r >= 0,
    ;
}

/// An amount text whose one point stands at `p`.
proof fn lemma_point_at(s: Seq<char>, p: int)
    requires
        0 <= p < s.len(),
        s[p] == '.',
        all_digits(s.take(p)),
        all_digits(s.skip(p + 1)),
    ensures
        point_index(s) == p,
        s.len() > 1 ==> is_amount_text(s),
{
    assert(!all_digits(s)) by {
        assert(!is_digit(s[p]));
    }
    let q = point_index(s);
    assert(q == p) by {
        if q < p {
            assert(s.take(p)[q] == s[q]);
        } else if q > p {
            assert(s.take(q)[p] == s[p]);
        }
    }
}

/// The digits before the point of an amount text, after its leading zeros.
proof fn lemma_whole_part(s: Seq<char>, z: int, p: int)
    requires
        is_amount_text(s),
        p == point_index(s),
        0 <= z <= p <= s.len(),
        forall|j: int| 0 <= j < z ==> #[trigger] s[j] == '0',
    ensures
        p < s.len() ==> s[p] == '.' && all_digits(s.take(p)) && all_digits(s.skip(p + 1)),
        p == s.len() ==> all_digits(s),
        all_digits(s.subrange(z, p)),
        whole_units(s) == digits_value(s.subrange(z, p)),
        digits_value(s.take(z)) == 0,
{
    if p < s.len() {
        let w = choose|w: int|
            0 <= w < s.len() && s[w] == '.' && all_digits(#[trigger] s.take(w)) && all_digits(
                s.skip(w + 1),
            ) && s.len() > 1;
        lemma_point_at(s, w);
    }
    let zeros = s.take(z);
    let whole = s.subrange(z, p);
    assert(s.take(p) =~= zeros + whole);
    assert forall|i: int| 0 <= i < zeros.len() implies #[trigger] zeros[i] == '0' by {
        assert(zeros[i] == s[i]);
    }
    assert forall|i: int| 0 <= i < whole.len() implies is_digit(#[trigger] whole[i]) by {
        assert(whole[i] == s.take(p)[z + i]);
    }
    lemma_zeros_value(zeros);
    lemma_digits_concat(zeros, whole);
    assert(digits_value(s.take(p)) == digits_value(zeros + whole));
    assert(digits_value(zeros) == 0);
    let (zv, pw) = (digits_value(zeros) as int, pow10(whole.len()) as int);
    assert(zv * pw == 0) by (nonlinear_arith)
        requires
            zv == 0,
    ;
}

/// Without a digit after its leading zeros an amount text is zero.
proof fn lemma_only_zeros(s: Seq<char>, z: int, p: int)
    requires
        is_amount_text(s),
        p == point_index(s),
        z == p,
        p == s.len() || p + 1 == s.len(),
        forall|j: int| 0 <= j < z ==> #[trigger] s[j] == '0',
    ensures
        amount_wei(s) == 0,
{
    assert(amount_digits(s) =~= s.take(z)) by {
        if p < s.len() {
            assert(s.skip(p + 1) =~= Seq::<char>::empty());
        }
    }
    lemma_zeros_value(s.take(z));
    assert(digits_value(amount_digits(s)) == 0);
    lemma_pow10_positive(fraction_len(s));
    assert(0 * pow10(18) == 0);
    assert(0nat / pow10(fraction_len(s)) == 0);
}

/// Leaving out an amount text's leading zeros and its decimals past the
/// eighteenth keeps the amount.
#[verifier::rlimit(50)]
proof fn lemma_trimmed(s: Seq<char>, z: int, p: int, end: int)
    requires
        is_amount_text(s),
        p == point_index(s),
        0 <= z <= p <= end <= s.len(),
        p == s.len() ==> end == s.len(),
        p < s.len() ==> end == if s.len() - p > NATIVE_DECIMALS + 1 {
            p + NATIVE_DECIMALS + 1
        } else {
            s.len() as int
        },
        !(z == p && end - p <= 1),
        forall|j: int| 0 <= j < z ==> #[trigger] s[j] == '0',
    ensures
        is_amount_text(s.subrange(z, end)),
        point_index(s.subrange(z, end)) == p - z,
        fraction_len(s.subrange(z, end)) <= NATIVE_DECIMALS,
        amount_wei(s.subrange(z, end)) == amount_wei(s),
{
    let n = s.len() as int;
    let t = s.subrange(z, end);
    lemma_whole_part(s, z, p);
    let zeros = s.take(z);
    let whole = s.subrange(z, p);
    let frac = if p < n {
        s.subrange(p + 1, end)
    } else {
        Seq::<char>::empty()
    };
    let cut = s.subrange(end, n);
    if p < n {
        assert(s.skip(p + 1) =~= frac + cut);
        assert forall|i: int| 0 <= i < frac.len() implies is_digit(#[trigger] frac[i]) by {
            assert(frac[i] == s.skip(p + 1)[i]);
        }
        assert forall|i: int| 0 <= i < cut.len() implies is_digit(#[trigger] cut[i]) by {
            assert(cut[i] == s.skip(p + 1)[end - p - 1 + i]);
        }
        assert(amount_digits(s) =~= zeros + (whole + frac + cut));
        assert(t[p - z] == '.');
        assert(t.take(p - z) =~= whole);
        assert(t.skip(p - z + 1) =~= frac);
        lemma_point_at(t, p - z);
        assert(amount_digits(t) =~= whole + frac);
    } else {
        assert(cut =~= Seq::<char>::empty());
        assert(amount_digits(s) =~= zeros + (whole + frac + cut));
        assert(t =~= whole);
        assert(whole + frac =~= whole);
        assert(all_digits(t));
    }
    assert(fraction_len(s) == frac.len() + cut.len());
    assert(fraction_len(t) == frac.len());
    lemma_digits_concat(zeros, whole + frac + cut);
    lemma_digits_concat(whole + frac, cut);
    let x = digits_value(whole + frac);
    let y = digits_value(cut);
    assert(digits_value(amount_digits(s)) == x * pow10(cut.len()) + y);
    assert(digits_value(amount_digits(t)) == x);
    if cut.len() > 0 {
        assert(frac.len() == NATIVE_DECIMALS);
        lemma_digits_below(cut);
        lemma_pow10_add(18, cut.len());
        lemma_pow10_positive(cut.len());
        let (xi, yi, d, e18) = (x as int, y as int, pow10(cut.len()) as int, pow10(18) as int);
        let nn = xi * d + yi;
        assert(nn * e18 == e18 * nn) by (nonlinear_arith);
        vstd::arithmetic::div_mod::lemma_div_multiples_vanish(nn, e18);
        vstd::arithmetic::div_mod::lemma_div_denominator(nn * e18, e18, d);
        assert(nn == d * xi + yi) by (nonlinear_arith)
            requires
                nn == xi * d + yi,
        ;
        vstd::arithmetic::div_mod::lemma_div_multiples_vanish_fancy(xi, yi, d);
        assert(xi * e18 == e18 * xi) by (nonlinear_arith);
        vstd::arithmetic::div_mod::lemma_div_multiples_vanish(xi, e18);
    } else {
        assert(pow10(0) == 1);
        assert(cut =~= Seq::<char>::empty());
        assert(digits_value(cut) == 0);
    }
}

/// Converts a decimal amount of the native asset to its smallest unit
/// (eighteen decimals, as little-endian 64-bit limbs), refusing what is
/// malformed, zero, or of ten to the `MAX_WHOLE_DIGITS` whole units or more.
/// Leading zeros and decimals past the eighteenth, which do not change the
/// amount, are left out of what is converted.
pub fn parse_amount(text: &str) -> (r: Result<[u64; 4], AmountError>)
    ensures
        amount_outcome(r) == amount_result(text@),
{
    let n = text.unicode_len();
    let p = match scan_amount(text) {
        None => {
            return Err(AmountError::Malformed);
        },
        Some(p) => p,
    };
    let ghost s = text@;
    let mut z: usize = 0;
    while z < p && text.get_char(z) == '0'
        invariant
            z <= p <= n,
            n == s.len(),
            s == text@,
            forall|j: int| 0 <= j < z ==> #[trigger] s[j] == '0',
        decreases p - z,
    {
        z = z + 1;
    }
    proof {
        lemma_whole_part(s, z as int, p as int);
    }
    let ghost whole = s.subrange(z as int, p as int);
    if p - z > MAX_WHOLE_DIGITS {
        proof {
            assert(whole[0] == s[z as int]);
            lemma_leading_digit(whole);
            let rest = (whole.len() - 1 - MAX_WHOLE_DIGITS) as nat;
            lemma_pow10_add(MAX_WHOLE_DIGITS as nat, rest);
            lemma_pow10_positive(rest);
            assert((MAX_WHOLE_DIGITS as nat + rest) as nat == (whole.len() - 1) as nat);
            let (x, y) = (pow10(MAX_WHOLE_DIGITS as nat) as int, pow10(rest) as int);
            assert(x * y >= x) by (nonlinear_arith)
                requires
                    x >= 0,
                    y >= 1,
            ;
        }
        return Err(AmountError::TooLarge);
    }
    proof {
        lemma_digits_below(whole);
        let rest = (MAX_WHOLE_DIGITS - whole.len()) as nat;
        lemma_pow10_add(whole.len(), rest);
        lemma_pow10_positive(rest);
        assert(whole.len() + rest == MAX_WHOLE_DIGITS as nat);
        let (x, y) = (pow10(whole.len()) as int, pow10(rest) as int);
        assert(x * y >= x) by (nonlinear_arith)
            requires
                x >= 0,
                y >= 1,
        ;
    }
    let end: usize = if p < n && n - p > NATIVE_DECIMALS + 1 {
        p + NATIVE_DECIMALS + 1
    } else {
        n
    };
    if z == p && end - p <= 1 {
        proof {
            lemma_only_zeros(s, z as int, p as int);
        }
        return Err(AmountError::NotPositive);
    }
    proof {
        lemma_trimmed(s, z as int, p as int, end as int);
    }
    let t = text.substring_char(z, end);
    let limbs = match parse_ether_limbs(t) {
        Some(l) => l,
        None => {
            return Err(AmountError::Malformed);
        },
    };
    if limbs[0] == 0 && limbs[1] == 0 && limbs[2] == 0 && limbs[3] == 0 {
        return Err(AmountError::NotPositive);
    }
    Ok(limbs)
}

} // verus!
