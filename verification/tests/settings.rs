use timemd::clock::{CalendarDate, Moment, TimeOfDay};
use timemd::active::SessionKind;
use timemd::minutes::Minutes;
use timemd::settings::{
    Settings, SettingsPatch, DEFAULT_FOCUS, DEFAULT_LONG_BREAK, DEFAULT_LONG_BREAK_EVERY, DEFAULT_REMIND_BEFORE,
    DEFAULT_SHORT_BREAK,
};

#[test]
fn falls_back_on_a_zero_length_block() {
    let settings = Settings::parse("---\nfocus: 0m\nshort_break: 0m\nlong_break: 0m\n---\n").expect("parses");
    assert_eq!(settings.focus, Minutes::new(DEFAULT_FOCUS));
    assert_eq!(settings.short_break, Minutes::new(DEFAULT_SHORT_BREAK));
    assert_eq!(settings.long_break, Minutes::new(DEFAULT_LONG_BREAK));
}

#[test]
fn reads_every_value() {
    let text = "---\ntimezone: Europe/Berlin\nfocus: 50m\nshort_break: 10m\nlong_break: 30m\nlong_break_every: 3\nremind_before: 15m\n---\n";
    let settings = Settings::parse(text).expect("parses");
    assert_eq!(settings.timezone, "Europe/Berlin");
    assert_eq!(settings.focus, Minutes::new(50));
    assert_eq!(settings.short_break, Minutes::new(10));
    assert_eq!(settings.long_break, Minutes::new(30));
    assert_eq!(settings.long_break_every, 3);
    assert_eq!(settings.remind_before, Minutes::new(15));
}

#[test]
fn falls_back_for_missing_and_unreadable_values() {
    let settings = Settings::parse("---\ntimezone: Not/AZone\nfocus: banana\n---\n").expect("parses");
    assert_eq!(settings.focus, Minutes::new(DEFAULT_FOCUS));
    assert_eq!(settings.short_break, Minutes::new(DEFAULT_SHORT_BREAK));
    assert_eq!(settings.long_break_every, DEFAULT_LONG_BREAK_EVERY);
    assert_ne!(settings.timezone, "Not/AZone");
}

#[test]
fn rejects_a_zero_long_break_interval_that_would_divide_by_zero() {
    let settings = Settings::parse("---\nlong_break_every: 0\n---\n").expect("parses");
    assert_eq!(settings.long_break_every, DEFAULT_LONG_BREAK_EVERY);
    assert_eq!(settings.break_after(4), SessionKind::LongBreak);
}

#[test]
fn settings_round_trips_through_render_and_parse() {
    let text = "---\ntimezone: Europe/Berlin\nfocus: 50m\nshort_break: 10m\nlong_break: 30m\nlong_break_every: 3\nremind_before: 15m\n---\n";
    let settings = Settings::parse(text).expect("parses");
    let reparsed = Settings::parse(&settings.render()).expect("parses");
    assert!(settings.same(&reparsed));
}

#[test]
fn preserves_unknown_keys() {
    let settings = Settings::parse("---\nfocus: 25m\ntheme: dark\n---\n").expect("parses");
    assert!(settings.render().contains("theme: dark"));
}

#[test]
fn picks_the_long_break_on_the_interval() {
    let mut settings = Settings::default();
    settings.long_break_every = 4;
    assert_eq!(settings.break_after(1), SessionKind::ShortBreak);
    assert_eq!(settings.break_after(3), SessionKind::ShortBreak);
    assert_eq!(settings.break_after(4), SessionKind::LongBreak);
    assert_eq!(settings.break_after(8), SessionKind::LongBreak);
    assert_eq!(settings.break_after(0), SessionKind::ShortBreak);

    let mut same = Settings::default();
    same.short_break = Minutes::new(DEFAULT_LONG_BREAK);
    assert_eq!(same.length_of(same.break_after(1)), Minutes::new(DEFAULT_LONG_BREAK));
    assert_eq!(same.break_after(1), SessionKind::ShortBreak);
}

#[test]
fn defaults_render_and_reparse_identically() {
    let settings = Settings::default();
    assert!(Settings::parse(&settings.render()).expect("parses").same(&settings));
}

#[test]
fn a_zero_session_length_is_refused_but_a_zero_lead_is_not() {
    for patch in [
        SettingsPatch { focus: Some(Minutes::new(0)), ..SettingsPatch::default() },
        SettingsPatch { short_break: Some(Minutes::new(0)), ..SettingsPatch::default() },
        SettingsPatch { long_break: Some(Minutes::new(0)), ..SettingsPatch::default() },
    ] {
        let mut settings = Settings::default();
        assert!(settings.apply(patch).is_err(), "{patch:?}");
        assert!(settings.same(&Settings::default()), "a refusal changes nothing");
    }

    let mut settings = Settings::default();
    settings
        .apply(SettingsPatch { remind_before: Some(Minutes::new(0)), ..SettingsPatch::default() })
        .expect("a zero lead is allowed");
    assert_eq!(settings.remind_before, Minutes::new(0));
}

#[test]
fn settings_an_empty_patch_is_empty_and_changes_nothing() {
    let mut settings = Settings::default();
    assert!(SettingsPatch::default().is_empty());
    assert!(!SettingsPatch { focus: Some(Minutes::new(50)), ..SettingsPatch::default() }.is_empty());

    settings.apply(SettingsPatch::default()).expect("applies");
    assert!(settings.same(&Settings::default()));
}

#[test]
fn a_patch_only_touches_the_lengths_it_names() {
    let mut settings = Settings::default();
    settings
        .apply(SettingsPatch { focus: Some(Minutes::new(50)), ..SettingsPatch::default() })
        .expect("applies");

    assert_eq!(settings.focus, Minutes::new(50));
    assert_eq!(settings.short_break, Minutes::new(DEFAULT_SHORT_BREAK));
    assert_eq!(settings.long_break, Minutes::new(DEFAULT_LONG_BREAK));
    assert_eq!(settings.remind_before, Minutes::new(DEFAULT_REMIND_BEFORE));
}

#[test]
fn a_zero_length_refusal_names_the_setting() {
    let mut settings = Settings::default();
    let error = settings
        .apply(SettingsPatch { focus: Some(Minutes::new(0)), ..SettingsPatch::default() })
        .expect_err("zero");
    assert_eq!(error.message(), "focus must be more than zero minutes");
}

#[test]
fn reads_the_wall_clock_in_the_settings_zone() {
    let mut settings = Settings::parse("---\ntimezone: Asia/Tokyo\n---\n").expect("parses");
    let date = CalendarDate::from_ymd(2025, 12, 31).expect("valid date");
    let time = TimeOfDay::from_hms(20, 30, 15).expect("valid time");
    let local = settings.wall_clock(Moment::new(date, time)).expect("known zone");
    assert_eq!(local.date, CalendarDate::from_ymd(2026, 1, 1).expect("valid date"));
    assert_eq!(local.time, TimeOfDay::from_hms(5, 30, 15).expect("valid time"));

    settings.timezone = "Not/AZone".to_owned();
    assert!(settings.wall_clock(Moment::new(date, time)).is_none());
}

#[test]
fn settings_keep_hand_added_keys_of_every_kind_on_write() {
    let text = "---\nfocus: 25m\ntags:\n- deep\n- work\nquiet: true\nratio: 0.5\n---\n";
    let mut settings = Settings::parse(text).expect("parses");
    settings
        .apply(SettingsPatch { focus: Some(Minutes::new(50)), ..SettingsPatch::default() })
        .expect("applies");
    let rendered = settings.render();
    assert!(rendered.contains("tags:\n- deep\n- work\n"), "{rendered}");
    assert!(rendered.contains("quiet: true"), "{rendered}");
    assert!(rendered.contains("ratio: 0.5"), "{rendered}");
    assert!(rendered.contains("focus: 50m"), "{rendered}");
}
