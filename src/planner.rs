//! The trade planner: from a validated request, the base asset and a quote,
//! the swap to submit.
use vstd::prelude::*;
use crate::address::{Address, parse_address, is_address_text, address_bytes};
use crate::amount::{AmountError, parse_amount, amount_result, limbs_value};

verus! {

/// Slippage is given in parts of this many (parts per billion).
pub const SLIPPAGE_SCALE: u64 = 1_000_000_000;

/// The largest slippage used, 0.99 in parts of `SLIPPAGE_SCALE`.
pub const MAX_SLIPPAGE: u64 = 990_000_000;

/// A trade as it arrives: text fields still unread.
#[derive(Clone, Debug)]
pub struct TradeRequest {
    pub target_token: String,
    pub input_amount: String,
    /// Tolerated slippage in parts of `SLIPPAGE_SCALE`; clamped before use.
    pub slippage: i64,
    /// Seconds from now until the swap expires.
    pub deadline_offset: u64,
}

/// A trade whose fields have been read and bounded.
#[derive(Clone, Copy, Debug)]
pub struct ValidRequest {
    pub target: Address,
    /// The input in smallest units of the native asset, as little-endian
    /// 64-bit limbs.
    pub amount_in: [u64; 4],
    /// Slippage in parts of `SLIPPAGE_SCALE`.
    pub slippage: u64,
    pub deadline_offset: u64,
}

/// The swap to submit: built once, consumed by one submission.
#[derive(Clone, Debug)]
pub struct SwapPlan {
    /// Native value attached to the swap, in smallest units (little-endian
    /// 64-bit limbs, as are the other amounts).
    pub amount_in: [u64; 4],
    pub amount_out_min: [u64; 4],
    /// The base asset, then the target token.
    pub path: Vec<Address>,
    pub recipient: Address,
    /// Absolute unix time after which the swap is void.
    pub deadline: u64,
}

/// Why a trade could not be planned.
#[derive(Clone, Copy, Debug, PartialEq, Eq, Structural)]
pub enum PlanError {
    /// The input amount was refused.
    Amount(AmountError),
    /// The target token is not an address.
    MalformedTarget,
    /// The target token is the base asset itself.
    TargetIsBaseAsset,
}

pub open spec fn clamped_slippage(raw: int) -> nat {
    if raw < 0 {
        0
    } else if raw > MAX_SLIPPAGE {
        MAX_SLIPPAGE as nat
    } else {
        raw as nat
    }
}

/// Expected output less the slippage, rounded down: floor(e * (1 - s)).
pub open spec fn min_output_of(expected: nat, slippage: nat) -> nat {
    expected * ((SLIPPAGE_SCALE - slippage) as nat) / (SLIPPAGE_SCALE as nat)
}

/// The output that a quote promises: its second element, if it has one.
pub open spec fn quoted_output(quote: Option<Seq<[u64; 4]>>) -> Option<nat> {
    match quote {
        Some(q) => if q.len() >= 2 {
            Some(limbs_value(q[1]))
        } else {
            None
        },
        None => None,
    }
}

pub open spec fn quote_view(quote: Option<Vec<[u64; 4]>>) -> Option<Seq<[u64; 4]>> {
    match quote {
        Some(q) => Some(q@),
        None => None,
    }
}

/// `now + offset`, with a negative `now` taken as zero, saturating at the
/// largest `u64`.
pub open spec fn deadline_of(now: int, offset: nat) -> nat {
    let t = if now < 0 {
        0
    } else {
        now
    };
    if t + offset > u64::MAX {
        u64::MAX as nat
    } else {
        (t + offset) as nat
    }
}

/// Bounds a raw slippage into [0, 0.99].
pub fn clamp_slippage(raw: i64) -> (r: u64)
    ensures
        r == clamped_slippage(raw as int),
{
    if raw < 0 {
        0
    } else if raw > MAX_SLIPPAGE as i64 {
        MAX_SLIPPAGE
    } else {
        raw as u64
    }
}

/// The least output accepted for an expected output and a slippage, both
/// exact over 256 bits: floor(expected * (1 - slippage)). The expected output
/// is divided by the scale limb by limb, and the quotient and remainder are
/// then scaled separately, so no intermediate exceeds 128 bits.
pub fn min_output(expected: [u64; 4], slippage: u64) -> (r: [u64; 4])
    requires
        slippage <= SLIPPAGE_SCALE,
    ensures
        limbs_value(r) == min_output_of(limbs_value(expected), slippage as nat),
        limbs_value(r) <= limbs_value(expected),
{
    let s = SLIPPAGE_SCALE as u128;
    let m = (SLIPPAGE_SCALE - slippage) as u128;
    let base: u128 = 0x1_0000_0000_0000_0000;
    let e0 = expected[0] as u128;
    let e1 = expected[1] as u128;
    let e2 = expected[2] as u128;
    let e3 = expected[3] as u128;
    let q3 = e3 / s;
    let r3 = e3 % s;
    let c2 = r3 * base + e2;
    let q2 = c2 / s;
    let r2 = c2 % s;
    let c1 = r2 * base + e1;
    let q1 = c1 / s;
    let r1 = c1 % s;
    let c0 = r1 * base + e0;
    let q0 = c0 / s;
    let r0 = c0 % s;
    assert(q0 < base && q1 < base && q2 < base && q3 < base);
    let ghost big_b: int = base as int;
    let ghost e: int = limbs_value(expected) as int;
    let ghost q: int = q0 + q1 * big_b + q2 * big_b * big_b + q3 * big_b * big_b * big_b;
    proof {
        let (si, bi) = (s as int, big_b);
        vstd::arithmetic::div_mod::lemma_fundamental_div_mod(e3 as int, si);
        vstd::arithmetic::div_mod::lemma_fundamental_div_mod(c2 as int, si);
        vstd::arithmetic::div_mod::lemma_fundamental_div_mod(c1 as int, si);
        vstd::arithmetic::div_mod::lemma_fundamental_div_mod(c0 as int, si);
        lemma_divide_step(e3 as int, q3 as int, r3 as int, e2 as int, c2 as int, q2 as int, r2 as int, si, bi);
        let x2 = e2 + e3 * bi;
        let p2 = q2 + q3 * bi;
        lemma_divide_step(x2, p2, r2 as int, e1 as int, c1 as int, q1 as int, r1 as int, si, bi);
        let x1 = e1 + x2 * bi;
        let p1 = q1 + p2 * bi;
        lemma_divide_step(x1, p1, r1 as int, e0 as int, c0 as int, q0 as int, r0 as int, si, bi);
        assert(e == e0 + x1 * bi) by (nonlinear_arith)
            requires
                e == e0 + e1 * bi + e2 * bi * bi + e3 * bi * bi * bi,
                x1 == e1 + x2 * bi,
                x2 == e2 + e3 * bi,
        ;
        assert(q == q0 + p1 * bi) by (nonlinear_arith)
            requires
                q == q0 + q1 * bi + q2 * bi * bi + q3 * bi * bi * bi,
                p1 == q1 + p2 * bi,
                p2 == q2 + q3 * bi,
        ;
    }
    assert(r0 * m < s * s) by (nonlinear_arith)
        requires
            r0 < s,
            m <= s,
    ;
    let low = r0 * m / s;
    assert(q0 * m < base * s && q1 * m < base * s && q2 * m < base * s && q3 * m < base * s)
        by (nonlinear_arith)
        requires
            q0 < base,
            q1 < base,
            q2 < base,
            q3 < base,
            m <= s,
            s > 0,
    ;
    let t0 = q0 * m + low;
    let o0 = t0 % base;
    let k0 = t0 / base;
    let t1 = q1 * m + k0;
    let o1 = t1 % base;
    let k1 = t1 / base;
    let t2 = q2 * m + k1;
    let o2 = t2 % base;
    let k2 = t2 / base;
    let t3 = q3 * m + k2;
    let o3 = t3 % base;
    let k3 = t3 / base;
    let ghost total: int = o0 + o1 * 0x1_0000_0000_0000_0000 + o2
        * 0x1_0000_0000_0000_0000_0000_0000_0000_0000 + o3
        * 0x1_0000_0000_0000_0000_0000_0000_0000_0000_0000_0000_0000_0000;
    proof {
        let (a0, a1, a2, a3) = (q0 * m, q1 * m, q2 * m, q3 * m);
        assert(t0 == o0 + k0 * 0x1_0000_0000_0000_0000);
        assert(t1 == o1 + k1 * 0x1_0000_0000_0000_0000);
        assert(t2 == o2 + k2 * 0x1_0000_0000_0000_0000);
        assert(t3 == o3 + k3 * 0x1_0000_0000_0000_0000);
        assert(total + k3 * 0x1_0000_0000_0000_0000_0000_0000_0000_0000_0000_0000_0000_0000_0000_0000_0000_0000
            == a0 + a1 * 0x1_0000_0000_0000_0000 + a2 * 0x1_0000_0000_0000_0000_0000_0000_0000_0000
            + a3 * 0x1_0000_0000_0000_0000_0000_0000_0000_0000_0000_0000_0000_0000 + low);
        assert(q * m == a0 + a1 * big_b + a2 * big_b * big_b + a3 * big_b * big_b * big_b)
            by (nonlinear_arith)
            requires
                q == q0 + q1 * big_b + q2 * big_b * big_b + q3 * big_b * big_b * big_b,
                a0 == q0 * m,
                a1 == q1 * m,
                a2 == q2 * m,
                a3 == q3 * m,
        ;
        assert(big_b * big_b == 0x1_0000_0000_0000_0000_0000_0000_0000_0000);
        assert(big_b * big_b * big_b == 0x1_0000_0000_0000_0000_0000_0000_0000_0000_0000_0000_0000_0000);
        assert(big_b * big_b * big_b * big_b
            == 0x1_0000_0000_0000_0000_0000_0000_0000_0000_0000_0000_0000_0000_0000_0000_0000_0000);
    }
    proof {
        let (mi, si) = (m as int, s as int);
        assert(e * mi == r0 * mi + (q * mi) * si) by (nonlinear_arith)
            requires
                e == si * q + r0,
        ;
        vstd::arithmetic::div_mod::lemma_hoist_over_denominator(r0 * mi, q * mi, si as nat);
        assert(e * mi <= e * si) by (nonlinear_arith)
            requires
                mi <= si,
                e >= 0,
        ;
        vstd::arithmetic::div_mod::lemma_div_is_ordered(e * mi, e * si, si);
        vstd::arithmetic::div_mod::lemma_div_multiples_vanish(e, si);
        assert(e * si == si * e) by (nonlinear_arith);
        assert(e < big_b * big_b * big_b * big_b) by (nonlinear_arith)
            requires
                e == e0 + e1 * big_b + e2 * big_b * big_b + e3 * big_b * big_b * big_b,
                e0 < big_b,
                e1 < big_b,
                e2 < big_b,
                e3 < big_b,
                big_b > 0,
        ;
        assert(k3 == 0) by (nonlinear_arith)
            requires
                total + k3 * big_b * big_b * big_b * big_b == q * mi + low,
                q * mi + low <= e,
                e < big_b * big_b * big_b * big_b,
                total >= 0,
                k3 >= 0,
                big_b > 0,
        ;
    }
    [o0 as u64, o1 as u64, o2 as u64, o3 as u64]
}

/// One step of long division: a high part `x = s * p + r` with the next
/// digit `lo` below it gives `lo + x * b = s * (q + p * b) + rr`, where
/// `r * b + lo = s * q + rr`.
proof fn lemma_divide_step(x: int, p: int, r: int, lo: int, c: int, q: int, rr: int, s: int, b: int)
    requires
        x == s * p + r,
        c == r * b + lo,
        c == s * q + rr,
    ensures
        lo + x * b == s * (q + p * b) + rr,
{
    assert(lo + x * b == s * (q + p * b) + rr) by (nonlinear_arith)
        requires
            x == s * p + r,
            c == r * b + lo,
            c == s * q + rr,
    ;
}

/// The absolute deadline: `now + offset`, saturating rather than wrapping.
pub fn deadline_at(now: i64, offset: u64) -> (r: u64)
    ensures
        r == deadline_of(now as int, offset as nat),
{
    let t: u64 = if now < 0 {
        0
    } else {
        now as u64
    };
    t.saturating_add(offset)
}

/// What `validate_request` returns: the amount is read first, then the target.
pub open spec fn validated(request: TradeRequest, r: Result<ValidRequest, PlanError>) -> bool {
    match amount_result(request.input_amount@) {
        Err(e) => r == Err::<ValidRequest, PlanError>(PlanError::Amount(e)),
        Ok(amount) => if !is_address_text(request.target_token@) {
            r == Err::<ValidRequest, PlanError>(PlanError::MalformedTarget)
        } else {
            r matches Ok(v) && v.target.bytes@ == address_bytes(request.target_token@)
                && limbs_value(v.amount_in) == amount && v.slippage == clamped_slippage(request.slippage as int)
                && v.deadline_offset == request.deadline_offset
        },
    }
}

/// Reads and bounds the fields of a request: the amount must be a positive
/// decimal, the target an address; the slippage is clamped into [0, 0.99].
pub fn validate_request(request: &TradeRequest) -> (r: Result<ValidRequest, PlanError>)
    ensures
        validated(*request, r),
{
    let amount_in = match parse_amount(request.input_amount.as_str()) {
        Ok(a) => a,
        Err(e) => {
            return Err(PlanError::Amount(e));
        },
    };
    let target = match parse_address(request.target_token.as_str()) {
        Some(a) => a,
        None => {
            return Err(PlanError::MalformedTarget);
        },
    };
    Ok(
        ValidRequest {
            target,
            amount_in,
            slippage: clamp_slippage(request.slippage),
            deadline_offset: request.deadline_offset,
        },
    )
}

/// The expected output of a quote: its second amount, if it has one.
pub fn expected_output(quote: &Option<Vec<[u64; 4]>>) -> (r: Option<[u64; 4]>)
    ensures
        quoted_output(quote_view(*quote)) == match r {
            Some(e) => Some(limbs_value(e)),
            None => None::<nat>,
        },
{
    match quote {
        Some(amounts) => {
            if amounts.len() < 2 {
                return None;
            }
            Some(amounts[1])
        },
        None => None,
    }
}

/// The least output for an optional expected output: with none, zero.
pub open spec fn planned_min_output(expected: Option<nat>, slippage: nat) -> nat {
    match expected {
        Some(e) => min_output_of(e, clamped_slippage(slippage as int)),
        None => 0,
    }
}

/// What `plan` returns, given the time it used.
pub open spec fn planned(
    request: ValidRequest,
    base_asset: Address,
    recipient: Address,
    quote: Option<Seq<[u64; 4]>>,
    now: int,
    r: Result<SwapPlan, PlanError>,
) -> bool {
    if request.target.bytes@ == base_asset.bytes@ {
        r == Err::<SwapPlan, PlanError>(PlanError::TargetIsBaseAsset)
    } else {
        r matches Ok(p) && p.amount_in == request.amount_in && limbs_value(p.amount_out_min)
            == planned_min_output(
            quoted_output(quote),
            request.slippage as nat,
        ) && p.path@ == seq![base_asset, request.target] && p.recipient == recipient
            && p.deadline == deadline_of(now, request.deadline_offset as nat)
    }
}

/// Builds the swap for a request: path [base asset, target], the quote's
/// expected output less the slippage as the least output (zero without a
/// quote), and a deadline `deadline_offset` seconds after `now`.
pub fn plan(
    request: &ValidRequest,
    base_asset: &Address,
    recipient: &Address,
    quote: &Option<Vec<[u64; 4]>>,
    now: i64,
) -> (r: Result<SwapPlan, PlanError>)
    ensures
        planned(*request, *base_asset, *recipient, quote_view(*quote), now as int, r),
{
    if request.target.same_as(base_asset) {
        return Err(PlanError::TargetIsBaseAsset);
    }
    let expected = expected_output(quote);
    let slippage = if request.slippage > MAX_SLIPPAGE {
        MAX_SLIPPAGE
    } else {
        request.slippage
    };
    let amount_out_min: [u64; 4] = match expected {
        Some(e) => min_output(e, slippage),
        None => [0, 0, 0, 0],
    };
    let path = vec![*base_asset, request.target];
    assert(path@ == seq![*base_asset, request.target]);
    Ok(
        SwapPlan {
            amount_in: request.amount_in,
            amount_out_min,
            path,
            recipient: *recipient,
            deadline: deadline_at(now, request.deadline_offset),
        },
    )
}

/// Relies on chrono's `From<SystemTime> for DateTime<Utc>` and
/// `DateTime::timestamp`: the current unix time in seconds, negative for a
/// clock set before 1970 (where `Utc::now` would panic). Nothing is claimed of
/// the value.
#[verifier::external_body]
fn unix_now() -> (r: i64) {
    chrono::DateTime::<chrono::Utc>::from(std::time::SystemTime::now()).timestamp()
}

/// `plan` at the current time.
pub fn plan_now(
    request: &ValidRequest,
    base_asset: &Address,
    recipient: &Address,
    quote: &Option<Vec<[u64; 4]>>,
) -> (r: Result<SwapPlan, PlanError>)
    ensures
        exists|now: i64|
            planned(*request, *base_asset, *recipient, quote_view(*quote), now as int, r),
{
    let now = unix_now();
    plan(request, base_asset, recipient, quote, now)
}

/// With a quote that promises `expected` and a slippage `s` in [0, 0.99], the
/// planned least output is floor(expected * (1 - s)), computed exactly; with
/// no slippage it is `expected` itself.
pub proof fn lemma_min_output_from_quote(
    request: ValidRequest,
    base_asset: Address,
    recipient: Address,
    quote: Option<Seq<[u64; 4]>>,
    now: int,
    r: Result<SwapPlan, PlanError>,
    expected: nat,
)
    requires
        planned(request, base_asset, recipient, quote, now, r),
        r is Ok,
        quoted_output(quote) == Some(expected),
        request.slippage <= MAX_SLIPPAGE,
    ensures
        limbs_value(r->Ok_0.amount_out_min) == expected * ((SLIPPAGE_SCALE - request.slippage)
            as nat) / (SLIPPAGE_SCALE as nat),
        request.slippage == 0 ==> limbs_value(r->Ok_0.amount_out_min) == expected,
{
    if request.slippage == 0 {
        vstd::arithmetic::div_mod::lemma_div_multiples_vanish(
            expected as int,
            SLIPPAGE_SCALE as int,
        );
        assert(expected * (SLIPPAGE_SCALE as nat) == (SLIPPAGE_SCALE as nat) * expected)
            by (nonlinear_arith);
    }
}

/// The deadline is `now + offset` whenever that fits in a `u64`, and the
/// largest `u64` otherwise: it never wraps, never falls below `now + offset`
/// short of the ceiling, and never passes the ceiling.
pub proof fn lemma_deadline_saturates(now: int, offset: nat)
    requires
        i64::MIN <= now <= i64::MAX,
        offset <= u64::MAX,
    ensures
        deadline_of(now, offset) <= u64::MAX,
        deadline_of(now, offset) >= offset,
        now + offset <= u64::MAX ==> deadline_of(now, offset) >= now + offset,
        now + offset > u64::MAX ==> deadline_of(now, offset) == u64::MAX,
{
}

/// When the quote call failed, the least output is zero, whatever the slippage.
pub proof fn lemma_failed_quote_gives_zero_min(
    request: ValidRequest,
    base_asset: Address,
    recipient: Address,
    now: int,
    r: Result<SwapPlan, PlanError>,
)
    requires
        planned(request, base_asset, recipient, None, now, r),
        request.target.bytes@ != base_asset.bytes@,
    ensures
        r is Ok,
        limbs_value(r->Ok_0.amount_out_min) == 0,
        r->Ok_0.amount_in == request.amount_in,
{
}

} // verus!
