use lemmate::daily::{format_date, DailySettings, Date, DEFAULT_TEMPLATE};

fn date(s: &str) -> Date {
    Date::parse(s).unwrap()
}

#[test]
fn dates_parse_strictly() {
    assert_eq!(date("2026-09-25"), Date { year: 2026, month: 9, day: 25 });
    assert_eq!(Date::parse("2026-02-29"), None);
    assert!(Date::parse("2024-02-29").is_some());
    assert_eq!(Date::parse("2026-9-25"), None);
    assert_eq!(Date::parse("../etc/pw"), None);
    assert_eq!(date("2026-09-25").iso(), "2026-09-25");
}

#[test]
fn day_arithmetic_round_trips() {
    for s in ["1970-01-01", "2000-02-29", "2026-12-31", "1899-03-01"] {
        let d = date(s);
        assert_eq!(Date::from_days(d.days()), d);
    }
    assert_eq!(date("1970-01-01").weekday(), 4); // Thursday
    assert_eq!(date("2026-09-25").weekday(), 5); // Friday
}

#[test]
fn defaults_and_the_root_folder() {
    let s = DailySettings::default();
    assert_eq!(s.path_for(date("2026-09-25")), "Daily/2026-09-25.md");
    let root = DailySettings { folder: "/".into(), ..Default::default() };
    assert_eq!(root.path_for(date("2026-09-25")), "2026-09-25.md");
    let nested = DailySettings {
        folder: "/Journal/".into(),
        format: "YYYY/MM/DD dddd".into(),
        ..Default::default()
    };
    assert_eq!(nested.path_for(date("2026-09-25")), "Journal/2026/09/25 Friday.md");
}

#[test]
fn templates_default_and_trim() {
    assert_eq!(DailySettings::default().template(), DEFAULT_TEMPLATE);
    let s = DailySettings { template: "  T/Day.md ".into(), ..Default::default() };
    assert_eq!(s.template(), "T/Day.md");
}

#[test]
fn moment_tokens_and_escapes() {
    let d = date("2026-01-05");
    assert_eq!(format_date("dddd, MMMM Do YYYY", d), "Monday, January 5th 2026");
    assert_eq!(format_date("[Week] WW, gggg-[W]ww", d), "Week 02, 2026-W02");
    assert_eq!(format_date("DDDD ddd MMM Q E e", d), "005 Mon Jan 1 1 1");
    assert_eq!(format_date("[abc", d), "[abc");
    assert_eq!(format_date("YY GG", date("2021-01-01")), "21 20");
    assert_eq!(format_date("Do", date("2026-01-11")), "11th");
    assert_eq!(format_date("Do", date("2026-01-22")), "22nd");
}

#[test]
fn leap_years_and_ordinals() {
    assert_eq!(format_date("DDD", date("2024-12-31")), "366");
    assert_eq!(format_date("DDD", date("2026-12-31")), "365");
    assert_eq!(Date::parse("1900-02-29"), None);
    assert!(Date::parse("2000-02-29").is_some());
    assert_eq!(date("2026-09-25").add_days(7), date("2026-10-02"));
}

#[test]
fn obsidian_settings_translate() {
    let s = DailySettings::from_obsidian(r#"{"folder":"Journal","format":"DD.MM.YYYY","template":"T/Day"}"#).unwrap();
    assert_eq!(s.path_for(date("2026-01-05")), "Journal/05.01.2026.md");
    assert_eq!(s.template(), "T/Day.md");
    // Obsidian's default is the vault root, not our `Daily/`.
    let bare = DailySettings::from_obsidian("{}").unwrap();
    assert_eq!(bare.path_for(date("2026-01-05")), "2026-01-05.md");
    assert_eq!(bare.template(), DEFAULT_TEMPLATE);
    assert_eq!(DailySettings::from_obsidian("not json"), None);
}
