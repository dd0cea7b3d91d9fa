use rust_executor::address::{parse_address, Address};
use rust_executor::amount::{parse_amount, AmountError};
use rust_executor::planner::{
    clamp_slippage, deadline_at, expected_output, min_output, plan, plan_now, validate_request,
    PlanError, TradeRequest, ValidRequest, MAX_SLIPPAGE, SLIPPAGE_SCALE,
};

const BASE: &str = "0xae13d989dac2f0debff460ac112a837c89baa7cd";
const TOKEN: &str = "0x1111111111111111111111111111111111111111";

fn addr(text: &str) -> Address {
    parse_address(text).unwrap()
}

fn limbs(v: u128) -> [u64; 4] {
    [v as u64, (v >> 64) as u64, 0, 0]
}

fn valid(slippage: u64) -> ValidRequest {
    ValidRequest {
        target: addr(TOKEN),
        amount_in: limbs(20_000_000_000_000_000),
        slippage,
        deadline_offset: 60,
    }
}

#[test]
fn amount_of_two_hundredths_in_smallest_units() {
    assert_eq!(parse_amount("0.02"), Ok(limbs(20_000_000_000_000_000)));
}

#[test]
fn amount_whole_and_fractional() {
    assert_eq!(parse_amount("1"), Ok(limbs(1_000_000_000_000_000_000)));
    assert_eq!(parse_amount("1.5"), Ok(limbs(1_500_000_000_000_000_000)));
    assert_eq!(parse_amount(".5"), Ok(limbs(500_000_000_000_000_000)));
    assert_eq!(parse_amount("2."), Ok(limbs(2_000_000_000_000_000_000)));
    assert_eq!(parse_amount("0.000000000000000001"), Ok(limbs(1)));
}

#[test]
fn amount_decimals_past_eighteen_are_cut() {
    assert_eq!(parse_amount("1.0000000000000000009"), Ok(limbs(1_000_000_000_000_000_000)));
    assert_eq!(parse_amount("0.0000000000000000009"), Err(AmountError::NotPositive));
}

#[test]
fn amount_refusals() {
    assert_eq!(parse_amount(""), Err(AmountError::Malformed));
    assert_eq!(parse_amount("."), Err(AmountError::Malformed));
    assert_eq!(parse_amount("abc"), Err(AmountError::Malformed));
    assert_eq!(parse_amount("1.2.3"), Err(AmountError::Malformed));
    assert_eq!(parse_amount("-1"), Err(AmountError::Malformed));
    assert_eq!(parse_amount("1e3"), Err(AmountError::Malformed));
    assert_eq!(parse_amount("0"), Err(AmountError::NotPositive));
    assert_eq!(parse_amount("0.000"), Err(AmountError::NotPositive));
    let tiny = "0.".to_string() + &"0".repeat(46) + "1";
    assert_eq!(parse_amount(&tiny), Err(AmountError::NotPositive));
    assert_eq!(parse_amount("1e58"), Err(AmountError::Malformed));
}

#[test]
fn amount_long_texts() {
    let one = "1.".to_string() + &"0".repeat(47);
    assert_eq!(parse_amount(&one), Ok(limbs(1_000_000_000_000_000_000)));
    let padded = "0".repeat(80) + "1.5";
    assert_eq!(parse_amount(&padded), Ok(limbs(1_500_000_000_000_000_000)));
    let zeros = "0".repeat(100) + ".";
    assert_eq!(parse_amount(&zeros), Err(AmountError::NotPositive));
}

#[test]
fn amount_whole_digit_limit() {
    // (10^58 - 1) * 10^18 smallest units
    let largest = "9".repeat(58);
    assert_eq!(
        parse_amount(&largest),
        Ok([17446744073709551616, 8607968719199866879, 532749306367912313, 1593091911132452277])
    );
    let too_large = "1".to_string() + &"0".repeat(58);
    assert_eq!(parse_amount(&too_large), Err(AmountError::TooLarge));
    let padded = "0".repeat(10) + &"9".repeat(58) + ".99";
    assert!(parse_amount(&padded).is_ok());
}

#[test]
fn amount_beyond_128_bits() {
    // u128::MAX is 340282366920938463463.374607431768211455 in whole units.
    assert_eq!(parse_amount("340282366920938463463.374607431768211455"), Ok(limbs(u128::MAX)));
    assert_eq!(parse_amount("340282366920938463463.374607431768211456"), Ok([0, 0, 1, 0]));
    assert_eq!(
        parse_amount("1000000000000000000000000000000"),
        Ok([0x7f41000000000000, 0x0e4395d69670b12b, 0xaf298d05, 0])
    );
}

#[test]
fn address_parsing_reads_bytes() {
    let a = addr("0x00ff10A0000000000000000000000000000000Fe");
    assert_eq!(a.bytes[0], 0x00);
    assert_eq!(a.bytes[1], 0xff);
    assert_eq!(a.bytes[2], 0x10);
    assert_eq!(a.bytes[3], 0xa0);
    assert_eq!(a.bytes[19], 0xfe);
    let b = addr("00ff10a0000000000000000000000000000000fe");
    assert!(a.same_as(&b));
    assert!(!a.same_as(&addr(TOKEN)));
}

#[test]
fn address_refusals() {
    assert!(parse_address("not-an-address").is_none());
    assert!(parse_address("").is_none());
    assert!(parse_address("0x").is_none());
    assert!(parse_address("0x111111111111111111111111111111111111111").is_none());
    assert!(parse_address("0x11111111111111111111111111111111111111111").is_none());
    assert!(parse_address("0X1111111111111111111111111111111111111111").is_none());
    assert!(parse_address("0x111111111111111111111111111111111111111g").is_none());
}

#[test]
fn slippage_is_clamped() {
    assert_eq!(clamp_slippage(-5), 0);
    assert_eq!(clamp_slippage(0), 0);
    assert_eq!(clamp_slippage(50_000_000), 50_000_000);
    assert_eq!(clamp_slippage(990_000_000), MAX_SLIPPAGE);
    assert_eq!(clamp_slippage(2_000_000_000), MAX_SLIPPAGE);
}

#[test]
fn min_output_is_exact_floor() {
    let e = limbs(1_000_000_000_000_000_000_000);
    assert_eq!(min_output(e, 50_000_000), limbs(950_000_000_000_000_000_000));
    assert_eq!(min_output(e, 0), e);
    assert_eq!(min_output(limbs(999), 500_000_000), limbs(499));
    assert_eq!(min_output(limbs(7), 990_000_000), limbs(0));
    assert_eq!(min_output(limbs(u128::MAX), 0), limbs(u128::MAX));
    assert_eq!(min_output(limbs(u128::MAX), SLIPPAGE_SCALE), limbs(0));
    assert_eq!(min_output(limbs(u128::MAX), MAX_SLIPPAGE), limbs(u128::MAX / 100));
    // 2^53 + 1 is kept exactly, which a float would round.
    assert_eq!(min_output(limbs((1 << 53) + 1), 0), limbs((1 << 53) + 1));
}

#[test]
fn min_output_over_256_bits() {
    let top = [u64::MAX; 4];
    assert_eq!(min_output(top, 0), top);
    assert_eq!(min_output([0, 0, 1, 0], 0), [0, 0, 1, 0]);
    // floor((2^256 - 1) / 100)
    assert_eq!(
        min_output(top, MAX_SLIPPAGE),
        [17708874310761169551, 10330176681277348904, 2951479051793528258, 184467440737095516]
    );
    // floor((2^200 + 12345) * 0.95)
    assert_eq!(
        min_output([12345, 0, 0, 256], 50_000_000),
        [3689348814741922050, 3689348814741910323, 3689348814741910323, 243]
    );
}

#[test]
fn deadline_adds_and_saturates() {
    assert_eq!(deadline_at(1_700_000_000, 60), 1_700_000_060);
    assert_eq!(deadline_at(1_700_000_000, u64::MAX), u64::MAX);
    assert_eq!(deadline_at(i64::MAX, u64::MAX - 1), u64::MAX);
    assert_eq!(deadline_at(-10, 30), 30);
}

#[test]
fn expected_output_cases() {
    assert_eq!(expected_output(&None), None);
    assert_eq!(expected_output(&Some(vec![limbs(1)])), None);
    assert_eq!(expected_output(&Some(vec![limbs(1), limbs(42)])), Some(limbs(42)));
    assert_eq!(expected_output(&Some(vec![limbs(1), [0, 0, 0, 1]])), Some([0, 0, 0, 1]));
}

#[test]
fn request_validation() {
    let req = TradeRequest {
        target_token: TOKEN.to_string(),
        input_amount: "0.02".to_string(),
        slippage: 3_000_000_000,
        deadline_offset: 120,
    };
    let v = validate_request(&req).unwrap();
    assert_eq!(v.amount_in, limbs(20_000_000_000_000_000));
    assert_eq!(v.slippage, MAX_SLIPPAGE);
    assert_eq!(v.deadline_offset, 120);
    assert!(v.target.same_as(&addr(TOKEN)));

    let bad_target = TradeRequest { target_token: "not-an-address".to_string(), ..req.clone() };
    assert!(matches!(validate_request(&bad_target), Err(PlanError::MalformedTarget)));
    let bad_amount = TradeRequest { input_amount: "zero".to_string(), ..req.clone() };
    assert!(matches!(
        validate_request(&bad_amount),
        Err(PlanError::Amount(AmountError::Malformed))
    ));
    let zero = TradeRequest { input_amount: "0".to_string(), ..req };
    assert!(matches!(
        validate_request(&zero),
        Err(PlanError::Amount(AmountError::NotPositive))
    ));
}

#[test]
fn plan_from_quote_with_five_percent_slippage() {
    let base = addr(BASE);
    let me = addr("0x2222222222222222222222222222222222222222");
    let quote = Some(vec![limbs(20_000_000_000_000_000), limbs(1_000_000_000_000_000_000_000)]);
    let p = plan(&valid(50_000_000), &base, &me, &quote, 1_700_000_000).unwrap();
    assert_eq!(p.amount_out_min, limbs(950_000_000_000_000_000_000));
    assert_eq!(p.amount_in, limbs(20_000_000_000_000_000));
    assert_eq!(p.path.len(), 2);
    assert!(p.path[0].same_as(&base));
    assert!(p.path[1].same_as(&addr(TOKEN)));
    assert!(p.recipient.same_as(&me));
    assert_eq!(p.deadline, 1_700_000_060);
}

#[test]
fn plan_without_slippage_keeps_expected_output() {
    let quote = Some(vec![limbs(1), limbs(123_456_789)]);
    let p = plan(&valid(0), &addr(BASE), &addr(BASE), &quote, 0).unwrap();
    assert_eq!(p.amount_out_min, limbs(123_456_789));
}

#[test]
fn plan_after_failed_quote_has_zero_minimum() {
    for s in [0, 50_000_000, MAX_SLIPPAGE] {
        let p = plan(&valid(s), &addr(BASE), &addr(BASE), &None, 10).unwrap();
        assert_eq!(p.amount_out_min, limbs(0));
        assert_eq!(p.amount_in, limbs(20_000_000_000_000_000));
    }
}

#[test]
fn plan_refuses_base_asset_as_target() {
    let mut req = valid(0);
    req.target = addr(BASE);
    let quote = Some(vec![limbs(1), limbs(2)]);
    assert!(matches!(
        plan(&req, &addr(BASE), &addr(TOKEN), &quote, 0),
        Err(PlanError::TargetIsBaseAsset)
    ));
}

#[test]
fn plan_with_quote_beyond_128_bits() {
    let quote = Some(vec![limbs(1), [0, 0, 1, 0]]);
    let p = plan(&valid(0), &addr(BASE), &addr(TOKEN), &quote, 0).unwrap();
    assert_eq!(p.amount_out_min, [0, 0, 1, 0]);
    let quote = Some(vec![limbs(1), [12345, 0, 0, 256]]);
    let p = plan(&valid(50_000_000), &addr(BASE), &addr(TOKEN), &quote, 0).unwrap();
    assert_eq!(
        p.amount_out_min,
        [3689348814741922050, 3689348814741910323, 3689348814741910323, 243]
    );
}

#[test]
fn plan_now_uses_the_clock() {
    let p = plan_now(&valid(0), &addr(BASE), &addr(TOKEN), &None).unwrap();
    // Later than 2023-11-14, when the unix time passed 1_700_000_000.
    assert!(p.deadline > 1_700_000_060);
}
