use timemd::clock::Weekday;
use timemd::schedule::DaySet;

fn set_of(bits: u8) -> DaySet {
    let days: Vec<Weekday> = (0..7)
        .filter(|index| bits & (1 << index) != 0)
        .map(Weekday::from_index)
        .collect();
    DaySet::from_weekdays(&days)
}

#[test]
fn rejects_nonsense_day_specs() {
    for candidate in ["", "funday", "fri-mon", "mon-", "-fri", "mon..fri"] {
        assert!(DaySet::parse(candidate).is_err(), "{candidate:?} should be rejected");
    }
}

#[test]
fn renders_day_specs_canonically() {
    for (input, expected) in [
        ("daily", "daily"),
        ("mon-fri", "mon-fri"),
        ("mon,wed,fri", "mon,wed,fri"),
        ("sat,sun", "sat,sun"),
        ("mon-fri,sun", "mon-fri,sun"),
        ("mon", "mon"),
        ("mon-tue", "mon,tue"),
    ] {
        let parsed = DaySet::parse(input).expect("parses");
        assert_eq!(parsed.render(), expected, "from {input:?}");
    }
}

#[test]
fn day_specs_round_trip() {
    for bits in 1_u8..0b1000_0000 {
        let original = DaySet::parse("mon-fri").map(|_| set_of(bits)).expect("constructed");
        let rendered = original.render();
        assert_eq!(DaySet::parse(&rendered).ok(), Some(original), "{rendered}");
    }
}

#[test]
fn day_names_round_trip_through_the_spec() {
    for spec in ["daily", "mon-fri", "mon,wed,fri", "mon-fri,sun", "sun"] {
        let parsed = DaySet::parse(spec).expect("parses");
        assert_eq!(DaySet::parse(&parsed.names().join(",")).ok(), Some(parsed), "{spec}");
        assert_eq!(
            DaySet::parse(&parsed.names().join(",")).map(|set| set.render()).ok(),
            Some(spec.to_owned())
        );
    }
    assert_eq!(
        DaySet::parse("mon-fri").expect("parses").names(),
        vec!["mon", "tue", "wed", "thu", "fri"]
    );
    assert!(DaySet::none().names().is_empty());
}

#[test]
fn parses_day_specs() {
    assert_eq!(DaySet::parse("daily").ok(), Some(DaySet::all()));
    assert_eq!(
        DaySet::parse("mon-fri").ok(),
        Some(DaySet::from_weekdays(&[
            Weekday::Mon,
            Weekday::Tue,
            Weekday::Wed,
            Weekday::Thu,
            Weekday::Fri
        ]))
    );
    assert_eq!(
        DaySet::parse("mon,wed,fri").ok(),
        Some(DaySet::from_weekdays(&[Weekday::Mon, Weekday::Wed, Weekday::Fri]))
    );
    assert_eq!(DaySet::parse(" Mon , SUN ").ok(), Some(DaySet::from_weekdays(&[Weekday::Mon, Weekday::Sun])));
}

#[test]
fn membership_follows_the_spec() {
    let set = DaySet::parse("mon-wed").expect("parses");
    assert!(set.contains(Weekday::Tue));
    assert!(!set.contains(Weekday::Sun));
    assert!(!set.is_empty());
    assert!(DaySet::none().is_empty());
}
