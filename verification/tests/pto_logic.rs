use money_bae::date::Date;
use money_bae::decimal::Dec;
use money_bae::pto_logic::calculate_hours_per_day;
use money_bae::pto_logic::calculate_or_custom_hours;
use money_bae::pto_logic::calculate_pto_hours;

fn ymd(y: i32, m: u32, d: u32) -> Date {
    Date::from_ymd(y, m, d).unwrap()
}

#[test]
fn test_workday_calculation_simple() {
    // Mon Jan 1 to Fri Jan 5, 2024 = 5 workdays = 40 hours
    let start = ymd(2024, 1, 1);
    let end = ymd(2024, 1, 5);
    let holidays = vec![];

    let result = calculate_pto_hours(&start, &end, &holidays);
    assert!(result.eq_value(&Dec::from_u64(40)));
}

#[test]
fn test_workday_calculation_with_weekend() {
    // Mon Jan 1 to Sun Jan 7, 2024 = 5 workdays = 40 hours
    let start = ymd(2024, 1, 1);
    let end = ymd(2024, 1, 7);
    let holidays = vec![];

    let result = calculate_pto_hours(&start, &end, &holidays);
    assert!(result.eq_value(&Dec::from_u64(40)));
}

#[test]
fn test_workday_calculation_with_holiday() {
    // Mon Jan 1 to Fri Jan 5, with 8-hour holiday on Jan 3
    let start = ymd(2024, 1, 1);
    let end = ymd(2024, 1, 5);
    let holidays = vec![(ymd(2024, 1, 3), Dec::from_u64(8))];

    let result = calculate_pto_hours(&start, &end, &holidays);
    assert!(result.eq_value(&Dec::from_u64(32))); // 40 - 8
}

#[test]
fn test_hours_per_day() {
    let start = ymd(2024, 1, 1);
    let end = ymd(2024, 1, 5);
    let hours = Dec::from_u64(40);

    let result = calculate_hours_per_day(&hours, &start, &end);
    assert!(result.eq_value(&Dec::from_u64(8)));
}

#[test]
fn workdays_only_range_pays_eight_per_day() {
    // Tue Jan 2 to Thu Jan 4, 2024: three workdays, no weekend inside
    let result = calculate_pto_hours(&ymd(2024, 1, 2), &ymd(2024, 1, 4), &vec![]);
    assert!(result.eq_value(&Dec::from_u64(24)));
}

#[test]
fn holiday_outside_range_changes_nothing() {
    let holidays = vec![(ymd(2024, 2, 1), Dec::from_u64(8))];
    let result = calculate_pto_hours(&ymd(2024, 1, 1), &ymd(2024, 1, 5), &holidays);
    assert!(result.eq_value(&Dec::from_u64(40)));
}

#[test]
fn two_holidays_on_one_date_both_deduct() {
    let holidays = vec![
        (ymd(2024, 1, 3), Dec::from_u64(8)),
        (ymd(2024, 1, 3), Dec::from_u64(4)),
    ];
    let result = calculate_pto_hours(&ymd(2024, 1, 1), &ymd(2024, 1, 5), &holidays);
    assert!(result.eq_value(&Dec::from_u64(28)));
}

#[test]
fn single_weekday_pays_eight() {
    let d = ymd(2024, 1, 3); // a Wednesday
    let result = calculate_pto_hours(&d, &d, &vec![]);
    assert!(result.eq_value(&Dec::from_u64(8)));
}

#[test]
fn single_weekend_day_pays_zero() {
    let d = ymd(2024, 1, 6); // a Saturday
    let result = calculate_pto_hours(&d, &d, &vec![]);
    assert!(result.eq_value(&Dec::from_u64(0)));
}

#[test]
fn holiday_on_weekend_still_deducts() {
    // Sat Jan 6 is in range and carries holiday hours: they come off even
    // though the day itself pays nothing
    let holidays = vec![(ymd(2024, 1, 6), Dec::from_u64(2))];
    let result = calculate_pto_hours(&ymd(2024, 1, 1), &ymd(2024, 1, 7), &holidays);
    assert!(result.eq_value(&Dec::from_u64(38)));
}

#[test]
fn deductions_may_exceed_the_base() {
    // one Wednesday at 8 hours, minus a 10-hour holiday: -2, not clamped
    let d = ymd(2024, 1, 3);
    let holidays = vec![(d, Dec::from_u64(10))];
    let result = calculate_pto_hours(&d, &d, &holidays);
    let expected = Dec::from_mantissa(-2, 0).unwrap();
    assert!(result.eq_value(&expected));
    assert!(result.is_negative());
}

#[test]
fn fractional_holiday_hours_deduct_exactly() {
    // 7.5 holiday hours on Wed Jan 3: 40 - 7.5 = 32.5
    let holidays = vec![(ymd(2024, 1, 3), Dec::from_mantissa(75, 1).unwrap())];
    let result = calculate_pto_hours(&ymd(2024, 1, 1), &ymd(2024, 1, 5), &holidays);
    assert!(result.eq_value(&Dec::from_mantissa(325, 1).unwrap()));
}

#[test]
fn reversed_range_pays_zero() {
    let result = calculate_pto_hours(&ymd(2024, 1, 5), &ymd(2024, 1, 1), &vec![]);
    assert!(result.eq_value(&Dec::from_u64(0)));
}

#[test]
fn reversed_range_average_is_zero() {
    let result = calculate_hours_per_day(&Dec::from_u64(40), &ymd(2024, 1, 5), &ymd(2024, 1, 1));
    assert!(result.eq_value(&Dec::from_u64(0)));
}

#[test]
fn zero_day_count_average_is_zero() {
    // end is the day before start: the inclusive day count is zero
    let result = calculate_hours_per_day(&Dec::from_u64(40), &ymd(2024, 1, 1), &ymd(2023, 12, 31));
    assert!(result.eq_value(&Dec::from_u64(0)));
}

#[test]
fn average_of_decimal_hours_divides_exactly() {
    // 8.1 hours over Mon Jan 1 to Wed Jan 3: 2.7 per day
    let hours = Dec::from_mantissa(81, 1).unwrap();
    let result = calculate_hours_per_day(&hours, &ymd(2024, 1, 1), &ymd(2024, 1, 3));
    assert!(result.eq_value(&Dec::from_mantissa(27, 1).unwrap()));
}

#[test]
fn average_truncates_after_extra_digits() {
    // 1 hour over three days: 0.3333...; the quotient carries 32 extra
    // digits and truncates toward zero there
    let hours = Dec::from_u64(1);
    let result = calculate_hours_per_day(&hours, &ymd(2024, 1, 1), &ymd(2024, 1, 3));
    let expected = Dec::from_digits(false, &vec![3u8; 32], 32).unwrap();
    assert!(result.eq_value(&expected));
}

#[test]
fn blank_hours_are_derived_and_not_custom() {
    let (hours, custom) = calculate_or_custom_hours(None, &ymd(2024, 1, 1), &ymd(2024, 1, 5), &vec![]);
    assert!(!custom);
    assert!(hours.eq_value(&Dec::from_u64(40)));
}

#[test]
fn entered_hours_override_and_set_the_flag() {
    let holidays = vec![(ymd(2024, 1, 3), Dec::from_u64(8))];
    let manual = Dec::from_mantissa(105, 1).unwrap(); // 10.5
    let (hours, custom) =
        calculate_or_custom_hours(Some(manual), &ymd(2024, 1, 1), &ymd(2024, 1, 5), &holidays);
    assert!(custom);
    assert!(hours.eq_value(&Dec::from_mantissa(105, 1).unwrap()));
}

#[test]
fn full_year_of_workdays() {
    // 2024 has 262 Monday-through-Friday days
    let result = calculate_pto_hours(&ymd(2024, 1, 1), &ymd(2024, 12, 31), &vec![]);
    assert!(result.eq_value(&Dec::from_u64(262 * 8)));
}
