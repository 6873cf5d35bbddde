use timemd::minutes::Minutes;

fn parse(text: &str) -> Result<Minutes, ()> {
    Minutes::parse(text).map_err(|_| ())
}

#[test]
fn parses_the_canonical_forms() {
    assert_eq!(parse("25m"), Ok(Minutes::new(25)));
    assert_eq!(parse("1h"), Ok(Minutes::new(60)));
    assert_eq!(parse("1h30m"), Ok(Minutes::new(90)));
    assert_eq!(parse("0m"), Ok(Minutes::new(0)));
}

#[test]
fn parses_non_canonical_but_unambiguous_input() {
    assert_eq!(parse("90m"), Ok(Minutes::new(90)));
    assert_eq!(parse("2h0m"), Ok(Minutes::new(120)));
}

#[test]
fn rejects_unlabelled_and_malformed_input() {
    for candidate in ["", "90", "1h30", "h", "m", "1d", "-5m", "1.5h", "1 h"] {
        assert!(parse(candidate).is_err(), "{candidate:?} should be rejected");
    }
}

#[test]
fn rejects_overflow_instead_of_wrapping() {
    assert!(parse("999999999999h").is_err());
}

#[test]
fn renders_the_canonical_form() {
    assert_eq!(Minutes::new(25).render(), "25m");
    assert_eq!(Minutes::new(60).render(), "1h");
    assert_eq!(Minutes::new(90).render(), "1h30m");
    assert_eq!(Minutes::new(0).render(), "0m");
}

#[test]
fn display_then_parse_is_identity() {
    for total in [0_u32, 1, 25, 59, 60, 61, 90, 120, 1439, 100_000] {
        let original = Minutes::new(total);
        assert_eq!(parse(&original.render()), Ok(original));
    }
}

#[test]
fn sums_without_overflowing() {
    let total = Minutes::sum(&[Minutes::new(25), Minutes::new(25), Minutes::new(40)]);
    assert_eq!(total, Minutes::new(90));
    assert_eq!(Minutes::new(u32::MAX).plus(Minutes::new(10)), Minutes::new(u32::MAX));
}

#[test]
fn trims_before_reading_and_refuses_a_bare_unit_group() {
    assert_eq!(parse("  45m "), Ok(Minutes::new(45)));
    assert!(parse("1hm").is_err());
    assert_eq!(parse("4294967295m"), Ok(Minutes::new(u32::MAX)));
    assert!(parse("4294967296m").is_err());
}

#[test]
fn splits_into_hours_and_minutes() {
    assert_eq!(Minutes::new(135).split(), (2, 15));
    assert!(Minutes::new(0).is_zero());
    assert_eq!(Minutes::new(7).get(), 7);
}
