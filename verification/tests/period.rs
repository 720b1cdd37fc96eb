use kubjas::period::{
    clause_matches, eval_sub_period, in_period, in_period_at, is_valid_period, parse_digits,
    parse_scale, parse_sub_period, parse_value, scale_value, Clause, Scale, TimeFields,
};

/// A time with the given date and clock fields (ISO week and day of the year are 1).
fn at(year: i32, month: u32, day: u32, weekday_from_sunday: u32, hour: u32, minute: u32, second: u32) -> TimeFields {
    TimeFields {
        year,
        month,
        iso_week: 1,
        ordinal: 1,
        day,
        weekday_from_sunday,
        hour,
        minute,
        second,
    }
}

#[test]
fn empty_period_always_matches() {
    assert!(in_period(""));
}

#[test]
fn month_range() {
    // mo {1-12} should always match
    assert!(in_period("mo {1-12}"));
}

#[test]
fn impossible_period() {
    // year 1970 — we're definitely not in 1970
    assert!(!in_period("yr {1970}"));
}

#[test]
fn comma_is_or() {
    // yr {1970}, yr {1-9999} — second clause matches
    assert!(in_period("yr {1970}, yr {1-9999}"));
}

#[test]
fn hour_am_pm() {
    // 12am = midnight = hour 0
    let result = parse_value(Scale::Hour, "12am");
    assert_eq!(result, Some((0, "")));

    let result = parse_value(Scale::Hour, "12pm");
    assert_eq!(result, Some((12, "")));

    let result = parse_value(Scale::Hour, "1pm");
    assert_eq!(result, Some((13, "")));
}

#[test]
fn month_names() {
    let result = parse_value(Scale::Month, "jan");
    assert_eq!(result, Some((1, "")));
    let result = parse_value(Scale::Month, "dec");
    assert_eq!(result, Some((12, "")));
}

#[test]
fn weekday_names() {
    let result = parse_value(Scale::WeekDay, "su");
    assert_eq!(result, Some((1, "")));
    let result = parse_value(Scale::WeekDay, "sa");
    assert_eq!(result, Some((7, "")));
}

#[test]
fn blank_period_admits_any_time() {
    assert!(in_period("   "));
    assert!(in_period_at(" \t ", &at(2024, 5, 6, 1, 3, 4, 5)));
}

#[test]
fn midnight_period() {
    let p = "hr {12am} min {0}";
    assert!(in_period_at(p, &at(2024, 5, 6, 1, 0, 0, 30)));
    assert!(!in_period_at(p, &at(2024, 5, 6, 1, 0, 1, 0)));
    assert!(!in_period_at(p, &at(2024, 5, 6, 1, 12, 0, 0)));
}

#[test]
fn sunday_midnight_period() {
    let p = "wd {su} hr {12am} min {0}";
    assert!(in_period_at(p, &at(2024, 5, 5, 0, 0, 0, 0)));
    assert!(!in_period_at(p, &at(2024, 5, 6, 1, 0, 0, 0)));
}

#[test]
fn first_of_month_afternoon_period() {
    let p = "md {1} hr {14} min {15} sec {0}";
    assert!(in_period_at(p, &at(2024, 6, 1, 6, 14, 15, 0)));
    assert!(!in_period_at(p, &at(2024, 6, 1, 6, 14, 15, 1)));
    assert!(!in_period_at(p, &at(2024, 6, 2, 0, 14, 15, 0)));
}

#[test]
fn weekday_name_ranges() {
    let monday = at(2024, 5, 6, 1, 22, 0, 0);
    let sunday = at(2024, 5, 5, 0, 22, 0, 0);
    assert!(in_period_at("wd {mon-fri} hr {22}", &monday));
    assert!(!in_period_at("wd {mon-fri} hr {22}", &sunday));
    assert!(in_period_at("wd {mo-fr}", &monday));
    assert!(in_period_at("wday {1 3 5 7} min {0-29}, wday {2 4 6} min {30-59}", &sunday));
}

#[test]
fn comma_alternatives_on_fixed_time() {
    let t = at(2024, 5, 6, 1, 10, 30, 0);
    assert!(in_period_at("yr {1970}, hr {10}", &t));
    assert!(!in_period_at("yr {1970}, hr {11}", &t));
    assert_eq!(
        in_period_at("hr {9}, min {30}", &t),
        in_period_at("hr {9}", &t) || in_period_at("min {30}", &t)
    );
}

#[test]
fn blank_and_unparsable_sub_periods_admit() {
    let t = at(2024, 5, 6, 1, 10, 30, 0);
    assert!(in_period_at("yr {1970},", &t));
    assert!(in_period_at("bogus {1}", &t));
    assert!(in_period_at("hr {10", &t));
    assert!(!in_period_at("yr {1970}, yr {1971}", &t));
}

#[test]
fn year_clause_on_fixed_time() {
    let t = at(2024, 5, 6, 1, 10, 30, 0);
    assert!(in_period_at("year {2000-2100}", &t));
    assert!(!in_period_at("year {2025-2100}", &t));
}

#[test]
fn parse_scale_keywords() {
    assert_eq!(parse_scale("hour {1}"), Some((Scale::Hour, " {1}")));
    assert_eq!(parse_scale("MIN {0}"), Some((Scale::Minute, " {0}")));
    assert_eq!(parse_scale("wd{1}"), Some((Scale::WeekDay, "{1}")));
    assert_eq!(parse_scale("yday {3}"), Some((Scale::YearDay, " {3}")));
    assert_eq!(parse_scale("hours {1}"), None);
    assert_eq!(parse_scale("hrs {1}"), None);
    assert_eq!(parse_scale("{1}"), None);
}

#[test]
fn parse_value_forms() {
    assert_eq!(parse_value(Scale::Hour, "12noon"), Some((12, "")));
    assert_eq!(parse_value(Scale::Hour, "11am"), Some((11, "")));
    assert_eq!(parse_value(Scale::Hour, "3pm-5pm"), Some((15, "-5pm")));
    assert_eq!(parse_value(Scale::Hour, "7 }"), Some((7, " }")));
    assert_eq!(parse_value(Scale::Month, "mayday"), None);
    assert_eq!(parse_value(Scale::Month, "Jun}"), Some((6, "}")));
    assert_eq!(parse_value(Scale::WeekDay, "mon"), Some((2, "")));
    assert_eq!(parse_value(Scale::Minute, "jan"), None);
}

#[test]
fn parse_digits_forms() {
    assert_eq!(parse_digits("42}"), Some((42, "}")));
    assert_eq!(parse_digits("x"), None);
    assert_eq!(parse_digits(""), None);
    assert_eq!(parse_digits("99999999999"), None);
}

#[test]
fn parse_sub_period_clauses() {
    let cs = parse_sub_period("wd {1 3 5 7} min {0-29}").unwrap();
    assert_eq!(cs.len(), 2);
    assert_eq!(cs[0].scale, Scale::WeekDay);
    assert_eq!(cs[0].ranges, vec![(1, 1), (3, 3), (5, 5), (7, 7)]);
    assert_eq!(cs[1].scale, Scale::Minute);
    assert_eq!(cs[1].ranges, vec![(0, 29)]);
    assert!(parse_sub_period("").is_none());
    assert!(parse_sub_period("hr {}").is_none());
    assert!(parse_sub_period("hr 5").is_none());
}

#[test]
fn scale_value_and_clause_matching() {
    let t = at(2024, 5, 5, 0, 23, 59, 58);
    assert_eq!(scale_value(Scale::WeekDay, &t), 1);
    assert_eq!(scale_value(Scale::Year, &t), 2024);
    assert_eq!(scale_value(Scale::Second, &t), 58);
    let c = Clause { scale: Scale::Hour, ranges: vec![(1, 2), (23, 23)] };
    assert!(clause_matches(&c, &t));
    let c2 = Clause { scale: Scale::Hour, ranges: vec![(1, 2)] };
    assert!(!clause_matches(&c2, &t));
    assert!(eval_sub_period("hr {23} min {59}", &t));
    assert!(!eval_sub_period("hr {23} min {0}", &t));
}

#[test]
fn period_validity() {
    assert!(!is_valid_period("garbage"));
    assert!(!is_valid_period("foo {bar}"));
    assert!(!is_valid_period("hr {1-2}, bogus {3}"));
    assert!(!is_valid_period("yr {1970},"));
    assert!(is_valid_period(""));
    assert!(is_valid_period("   "));
    assert!(is_valid_period("hr {1-2}"));
    assert!(is_valid_period("wday {1 3 5 7} min {0-29}, wday {2 4 6} min {30-59}"));
}
