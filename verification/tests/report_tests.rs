use perps_trade::decimal::Dec;
use perps_trade::report::{format_age, format_decimal, format_duration, format_pct, format_pct_cut, format_usd};

fn d(m: i128, s: u32) -> Dec {
    Dec::new(m, s)
}

#[test]
fn ages_pick_the_coarsest_unit() {
    assert_eq!(format_age(-5), "0s ago");
    assert_eq!(format_age(45), "45s ago");
    assert_eq!(format_age(60), "1m ago");
    assert_eq!(format_age(3599), "59m ago");
    assert_eq!(format_age(3600 * 3 + 7 * 60 + 12), "3h7m ago");
    assert_eq!(format_age(86_400 * 2 + 5), "2d ago");
}

#[test]
fn durations_show_two_units() {
    assert_eq!(format_duration(0), "0s");
    assert_eq!(format_duration(725), "12m5s");
    assert_eq!(format_duration(3600 * 3 + 7 * 60 + 59), "3h7m");
    assert_eq!(format_duration(86_400 * 2 + 4 * 3600 + 1), "2d4h");
}

#[test]
fn usd_amounts_round_to_four_places_and_strip_zeros() {
    assert_eq!(format_usd(d(125, 1)), "$12.5");
    assert_eq!(format_usd(d(-31, 4)), "-$0.0031");
    assert_eq!(format_usd(d(1234567, 6)), "$1.2346");
    assert_eq!(format_usd(d(100, 0)), "$100");
    assert_eq!(format_usd(Dec::zero()), "$0");
    // Half to even at the fourth place.
    assert_eq!(format_usd(d(123425, 5)), "$1.2342");
    assert_eq!(format_usd(d(123435, 5)), "$1.2344");
}

#[test]
fn percentages_round_or_cut_to_one_place() {
    assert_eq!(format_pct(d(125, 4)).unwrap(), "1.2%");
    assert_eq!(format_pct(d(135, 4)).unwrap(), "1.4%");
    assert_eq!(format_pct(d(199, 3)).unwrap(), "19.9%");
    assert_eq!(format_pct_cut(d(129, 4)).unwrap(), "1.2%");
    assert_eq!(format_pct_cut(d(876, 3)).unwrap(), "87.6%");
    assert_eq!(format_pct_cut(d(-5, 4)).unwrap(), "-0.0%");
    assert_eq!(format_pct_cut(d(2, 0)).unwrap(), "200.0%");
    assert!(format_pct(Dec::new(79228162514264337593543950335, 0)).is_none());
}

#[test]
fn quantities_round_then_strip_zeros() {
    assert_eq!(format_decimal(d(5, 1), 6), "0.5");
    assert_eq!(format_decimal(d(60000, 0), 2), "60000");
    assert_eq!(format_decimal(d(1199999, 3), 2), "1200");
    assert_eq!(format_decimal(d(-12345, 4), 2), "-1.23");
}

#[test]
fn format_usd_keeps_the_sign_of_negative_zero() {
    let neg_zero = Dec::zero().neg();
    assert_eq!(neg_zero, Dec::zero());
    assert_eq!(format_usd(neg_zero), "-$0");
    assert_eq!(format_usd(Dec::zero()), "$0");
    // A small negative amount that rounds to zero gives a plain zero.
    assert_eq!(format_usd(Dec::new(-1, 6)), "$0");
}
