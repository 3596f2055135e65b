use money_bae::common_layout::standard_footer;
use money_bae::common_layout::view_footer;
use money_bae::configuration_manager::ConfigurationManager;
use money_bae::date::Date;
use money_bae::decimal::Dec;
use money_bae::models::PtoStatus;

#[test]
fn valid_dates_construct_and_order() {
    let a = Date::from_ymd(2024, 1, 1).unwrap();
    let b = Date::from_ymd(2024, 1, 2).unwrap();
    assert!(a.le(&b));
    assert!(!b.le(&a));
    assert!(a.le(&a));
    assert_eq!(b.day_number() - a.day_number(), 1);
}

#[test]
fn leap_year_days_are_validated() {
    assert!(Date::from_ymd(2024, 2, 29).is_some());
    assert!(Date::from_ymd(2023, 2, 29).is_none());
    assert!(Date::from_ymd(1900, 2, 29).is_none());
    assert!(Date::from_ymd(2000, 2, 29).is_some());
}

#[test]
fn out_of_range_dates_are_rejected() {
    assert!(Date::from_ymd(2024, 13, 1).is_none());
    assert!(Date::from_ymd(2024, 0, 1).is_none());
    assert!(Date::from_ymd(2024, 4, 31).is_none());
    assert!(Date::from_ymd(2024, 1, 0).is_none());
    assert!(Date::from_ymd(0, 1, 1).is_none());
    assert!(Date::from_ymd(10000, 1, 1).is_none());
}

#[test]
fn weekday_numbers_run_monday_to_sunday() {
    assert_eq!(Date::from_ymd(2024, 1, 1).unwrap().weekday(), 0); // Monday
    assert_eq!(Date::from_ymd(2024, 1, 4).unwrap().weekday(), 3); // Thursday
    assert_eq!(Date::from_ymd(2024, 1, 7).unwrap().weekday(), 6); // Sunday
    assert_eq!(Date::from_ymd(1970, 1, 1).unwrap().weekday(), 3); // Thursday
}

#[test]
fn weekdays_follow_the_calendar() {
    assert!(Date::from_ymd(2024, 1, 1).unwrap().is_weekday()); // Monday
    assert!(Date::from_ymd(2024, 1, 5).unwrap().is_weekday()); // Friday
    assert!(!Date::from_ymd(2024, 1, 6).unwrap().is_weekday()); // Saturday
    assert!(!Date::from_ymd(2024, 1, 7).unwrap().is_weekday()); // Sunday
    assert!(Date::from_ymd(1970, 1, 1).unwrap().is_weekday()); // Thursday
}

#[test]
fn next_day_crosses_month_and_year_ends() {
    let a = Date::from_ymd(2024, 2, 29).unwrap();
    let b = Date::from_ymd(2024, 3, 1).unwrap();
    assert_eq!(a.next_day().day_number(), b.day_number());
    let c = Date::from_ymd(2023, 12, 31).unwrap();
    let d = Date::from_ymd(2024, 1, 1).unwrap();
    assert_eq!(c.next_day().day_number(), d.day_number());
}

#[test]
fn equal_values_at_different_scales_compare_equal() {
    let a = Dec::from_mantissa(150, 1).unwrap(); // 15.0
    let b = Dec::from_u64(15);
    assert!(a.eq_value(&b));
    let c = Dec::from_mantissa(15, 1).unwrap(); // 1.5
    assert!(!a.eq_value(&c));
}

#[test]
fn decimal_ordering_respects_sign_and_scale() {
    let minus_two = Dec::from_mantissa(-2, 0).unwrap();
    let half = Dec::from_mantissa(5, 1).unwrap();
    let two = Dec::from_u64(2);
    assert_eq!(minus_two.cmp_value(&half), -1);
    assert_eq!(half.cmp_value(&two), -1);
    assert_eq!(two.cmp_value(&minus_two), 1);
    assert_eq!(two.cmp_value(&Dec::from_mantissa(20, 1).unwrap()), 0);
}

#[test]
fn addition_and_subtraction_are_exact() {
    let a = Dec::from_mantissa(25, 1).unwrap(); // 2.5
    let b = Dec::from_mantissa(-1, 0).unwrap(); // -1
    assert!(a.add(&b).eq_value(&Dec::from_mantissa(15, 1).unwrap()));
    assert!(a.sub(&b).eq_value(&Dec::from_mantissa(35, 1).unwrap()));
    assert!(b.sub(&a).eq_value(&Dec::from_mantissa(-35, 1).unwrap()));
    assert!(a.neg().eq_value(&Dec::from_mantissa(-25, 1).unwrap()));
    assert!(a.sub(&a).eq_value(&Dec::from_u64(0)));
}

#[test]
fn repeated_tenths_sum_without_drift() {
    // ten times 0.1 is exactly 1
    let tenth = Dec::from_mantissa(1, 1).unwrap();
    let mut total = Dec::from_u64(0);
    for _ in 0..10 {
        total = total.add(&tenth);
    }
    assert!(total.eq_value(&Dec::from_u64(1)));
}

#[test]
fn raw_digit_construction_validates_digits() {
    assert!(Dec::from_digits(false, &vec![10u8], 0).is_none());
    let d = Dec::from_digits(true, &vec![5u8, 2u8], 1).unwrap(); // -2.5
    assert!(d.eq_value(&Dec::from_mantissa(-25, 1).unwrap()));
    let zero = Dec::from_digits(true, &vec![0u8, 0u8], 2).unwrap();
    assert!(!zero.is_negative());
    assert!(zero.eq_value(&Dec::from_u64(0)));
}

#[test]
fn scale_cap_is_enforced() {
    assert!(Dec::from_mantissa(1, 1000000).is_some());
    assert!(Dec::from_mantissa(1, 1000001).is_none());
}

#[test]
fn division_truncates_toward_zero() {
    let seven = Dec::from_u64(7);
    let q = seven.div_round_down(2);
    assert!(q.eq_value(&Dec::from_mantissa(35, 1).unwrap()));
    let minus_seven = Dec::from_mantissa(-7, 0).unwrap();
    let nq = minus_seven.div_round_down(2);
    assert!(nq.eq_value(&Dec::from_mantissa(-35, 1).unwrap()));
}

#[test]
fn status_names_round_trip() {
    let all = PtoStatus::all();
    assert_eq!(all.len(), 4);
    for status in all {
        assert_eq!(PtoStatus::from_name(&status.name()), status);
    }
    assert_eq!(PtoStatus::from_name(&"Approved".to_string()), PtoStatus::Approved);
    assert_eq!(PtoStatus::from_name(&"anything else".to_string()), PtoStatus::Planned);
}

#[test]
fn footers_match() {
    assert_eq!(standard_footer(), "q:Quit | h:Home | i:Income | b:Bills | l:Ledger");
    assert_eq!(view_footer(), standard_footer());
}

#[test]
fn configuration_round_trips_its_connection_string() {
    let c = ConfigurationManager::with_connection_string(Some("postgres://localhost/money".to_string()));
    assert_eq!(c.get_database_connection_string(), Some("postgres://localhost/money"));
    let none = ConfigurationManager::with_connection_string(None);
    assert_eq!(none.get_database_connection_string(), None);
    let d = ConfigurationManager::default();
    assert_eq!(d.get_database_connection_string(), None);
}
