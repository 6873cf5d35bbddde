use timemd::todo::{OnCompletion, Priority, TodoStatus};

#[test]
fn statuses_and_priorities_round_trip_through_text() {
    for status in [
        TodoStatus::Open,
        TodoStatus::Done,
        TodoStatus::Cancelled,
        TodoStatus::Other('/'),
    ] {
        assert_eq!(TodoStatus::parse(&status.render()).ok(), Some(status));
    }
    assert!(TodoStatus::parse("half-way").is_err());

    for priority in [
        Priority::Highest,
        Priority::High,
        Priority::Medium,
        Priority::Normal,
        Priority::Low,
        Priority::Lowest,
    ] {
        assert_eq!(Priority::parse(&priority.render()).ok(), Some(priority));
    }
    assert!(Priority::parse("urgent").is_err());

    for on_completion in [OnCompletion::Keep, OnCompletion::Delete] {
        assert_eq!(OnCompletion::parse(&on_completion.render()).ok(), Some(on_completion));
    }
    assert!(OnCompletion::parse("archive").is_err());
}

#[test]
fn a_checkbox_character_names_its_status() {
    assert_eq!(TodoStatus::from_symbol(' '), TodoStatus::Open);
    assert_eq!(TodoStatus::from_symbol('X'), TodoStatus::Done);
    assert_eq!(TodoStatus::from_symbol('-'), TodoStatus::Cancelled);
    assert_eq!(TodoStatus::from_symbol('/'), TodoStatus::Other('/'));
    assert_eq!(TodoStatus::Done.symbol(), 'x');
    assert!(TodoStatus::Other('/').is_open());
    assert!(!TodoStatus::Cancelled.is_open());
    assert_eq!(TodoStatus::parse("todo").ok(), Some(TodoStatus::Open));
}

#[test]
fn priorities_have_signifiers_but_normal() {
    assert_eq!(Priority::Normal.symbol(), None);
    assert_eq!(Priority::High.symbol(), Some('⏫'));
    assert_eq!(Priority::from_symbol('🔺'), Some(Priority::Highest));
    assert_eq!(Priority::from_symbol('x'), None);
}

use timemd::clock::{CalendarDate, TimeOfDay};
use timemd::ids::{ProjectSlug, TodoId};
use timemd::todo::{Stamp, Todo, TodoEdit, TodoQuery, Todos};

fn slug(name: &str) -> ProjectSlug {
    ProjectSlug::new(name).expect("valid slug")
}

fn date(year: i32, month: u32, day: u32) -> CalendarDate {
    CalendarDate::from_ymd(year, month, day).expect("valid date")
}

fn at(hours: u32, minutes: u32) -> TimeOfDay {
    TimeOfDay::from_hms(hours, minutes, 0).expect("valid time")
}

fn todo(description: &str) -> Todo {
    Todo::new(TodoStatus::Open, description).expect("valid todo")
}

const SAMPLE: &str = "---\n---\n\n## Todos\n\n- [ ] [[timemd]] Draft the release notes ⏫ 🆔 dcf64c ➕ 2026-08-24 ⏳ 2026-08-30 14:00 📅 2026-08-31\n- [x] [[timemd]] Fix the ticker drift 🔺 🆔 0h17ye ⛔ dcf64c ✅ 2026-08-23\n";

#[test]
fn reads_every_field_off_one_line() {
    let todos = Todos::parse(SAMPLE).expect("parses");
    let first = &todos.todos()[0];

    assert_eq!(first.description(), "Draft the release notes");
    assert_eq!(first.project, Some(slug("timemd")));
    assert_eq!(first.priority, Priority::High);
    assert_eq!(first.id().map(TodoId::as_str), Some("dcf64c"));
    assert_eq!(first.created, Some(Stamp::on(date(2026, 8, 24))));
    assert_eq!(first.scheduled, Some(Stamp::at(date(2026, 8, 30), at(14, 0))));
    assert_eq!(first.due, Some(Stamp::on(date(2026, 8, 31))));
    assert!(first.is_open());
    assert!(todos.problems().is_empty());
}

#[test]
fn reads_dependencies_and_a_tick() {
    let todos = Todos::parse(SAMPLE).expect("parses");
    let second = &todos.todos()[1];

    assert_eq!(second.status, TodoStatus::Done);
    assert!(!second.is_open());
    assert_eq!(second.priority, Priority::Highest);
    assert_eq!(
        second.depends_on.iter().map(TodoId::as_str).collect::<Vec<_>>(),
        ["dcf64c"]
    );
    assert_eq!(second.done, Some(Stamp::on(date(2026, 8, 23))));
}

#[test]
fn todo_round_trips_a_canonical_file() {
    let todos = Todos::parse(SAMPLE).expect("parses");
    assert_eq!(todos.render(), SAMPLE);
}

#[test]
fn accepts_the_signifiers_in_any_order() {
    let jumbled = "---\n---\n\n## Todos\n\n- [ ] Ship it 📅 2026-08-31 🆔 abc123 🔽 ⏳ 2026-08-30\n";
    let todos = Todos::parse(jumbled).expect("parses");
    let only = &todos.todos()[0];

    assert_eq!(only.priority, Priority::Low);
    assert_eq!(only.due, Some(Stamp::on(date(2026, 8, 31))));
    assert_eq!(only.scheduled, Some(Stamp::on(date(2026, 8, 30))));
    assert!(
        todos
            .render()
            .contains("- [ ] Ship it 🔽 🆔 abc123 ⏳ 2026-08-30 📅 2026-08-31"),
        "{}",
        todos.render()
    );
}

#[test]
fn a_recurrence_rule_survives_untouched() {
    let source = "---\n---\n\n## Todos\n\n- [ ] Water the plants 🔁 every day when done ⏳ 2026-08-25\n";
    let todos = Todos::parse(source).expect("parses");

    assert_eq!(todos.todos()[0].recurrence.as_deref(), Some("every day when done"));
    assert_eq!(todos.render(), source);
}

#[test]
fn an_unknown_checkbox_character_is_kept_and_reads_as_open() {
    let source = "---\n---\n\n## Todos\n\n- [/] Half done\n";
    let todos = Todos::parse(source).expect("parses");

    assert_eq!(todos.todos()[0].status, TodoStatus::Other('/'));
    assert!(todos.todos()[0].is_open());
    assert_eq!(todos.render(), source);
}

#[test]
fn keeps_and_reports_a_line_it_cannot_read() {
    let source = "---\n---\n\n## Todos\n\n- [ ] Fine\n- [ ] Broken 📅 not-a-date\n";
    let todos = Todos::parse(source).expect("parses");

    assert_eq!(todos.todos().len(), 1);
    assert_eq!(todos.problems().len(), 1);
    assert!(todos.render().contains("- [ ] Broken 📅 not-a-date"), "{}", todos.render());
}

#[test]
fn refuses_a_field_given_twice() {
    for candidate in [
        "[ ] Two dues 📅 2026-08-30 📅 2026-08-31",
        "[ ] Two priorities ⏫ 🔽",
        "[ ] Two ids 🆔 abc123 🆔 def456",
    ] {
        assert!(Todo::parse(candidate).is_err(), "{candidate:?}");
    }
}

#[test]
fn refuses_a_description_it_could_not_read_back() {
    for candidate in [
        "",
        "   ",
        "two\nlines",
        "carriage\rreturn",
        "has a 📅 in it",
        "[[timemd]] leading link",
    ] {
        assert!(
            Todo::new(TodoStatus::Open, candidate).is_err(),
            "{candidate:?} should be refused"
        );
    }
    assert_eq!(todo("  padded  ").description(), "padded");
}

#[test]
fn tags_are_read_out_of_the_description() {
    let tagged = todo("Draft the notes #writing #release");
    assert_eq!(tagged.tags(), ["writing", "release"]);
    assert_eq!(todo("no tags here").tags().len(), 0);
}

#[test]
fn stamps_round_trip_with_and_without_a_time() {
    for raw in ["2026-08-30", "2026-08-30 14:00"] {
        let stamp = Stamp::parse(raw).expect("parses");
        assert_eq!(stamp.render(), raw);
    }
    for raw in ["2026-8-30", "30-08-2026", "2026-08-30 14:00:00", "soon", ""] {
        assert!(Stamp::parse(raw).is_err(), "{raw:?} should be refused");
    }
}

#[test]
fn an_id_is_minted_on_the_way_to_disk_only() {
    let source = "---\n---\n\n## Todos\n\n- [ ] No id yet\n";
    let mut todos = Todos::parse(source).expect("parses");

    assert_eq!(todos.render(), source, "reading alone rewrites nothing");
    assert_eq!(todos.assign_ids(), 1);
    assert_eq!(todos.assign_ids(), 0, "a second pass mints nothing");

    let id = TodoId::new(todos.todos()[0].id().expect("minted").as_str()).expect("valid");
    assert!(
        todos.render().contains(&format!("🆔 {}", id.as_str())),
        "{}",
        todos.render()
    );
    assert_eq!(todos.position(&id).ok(), Some(0));
}

#[test]
fn a_new_file_renders_a_template() {
    let mut todos = Todos::default();
    assert_eq!(todos.render(), "---\n---\n\n# Todos\n");

    todos.add(todo("Ship it")).expect("adds");
    assert!(
        todos
            .render()
            .starts_with("---\n---\n\n# Todos\n\n## Todos\n\n- [ ] Ship it"),
        "{}",
        todos.render()
    );
}

#[test]
fn two_todos_sharing_a_description_get_different_ids() {
    let mut todos = Todos::default();
    let first = todos.add(todo("Same words")).expect("adds");
    let second = todos.add(todo("Same words")).expect("adds");
    assert_ne!(first, second);
}

#[test]
fn adds_gets_updates_and_removes_by_id() {
    let mut todos = Todos::default();
    let id = todos.add(todo("Draft the notes")).expect("adds");

    todos
        .update(
            &id,
            TodoEdit {
                status: Some(TodoStatus::Done),
                description: Some("Draft the release notes".to_owned()),
                due: Some(Some(Stamp::on(date(2026, 8, 31)))),
                ..TodoEdit::default()
            },
        )
        .expect("updates");

    let updated = todos.get(&id).expect("present");
    assert_eq!(updated.description(), "Draft the release notes");
    assert_eq!(updated.status, TodoStatus::Done);
    assert_eq!(updated.due, Some(Stamp::on(date(2026, 8, 31))));

    todos
        .update(&id, TodoEdit { due: Some(None), ..TodoEdit::default() })
        .expect("clears the due date");
    assert_eq!(todos.get(&id).expect("present").due, None);

    assert_eq!(todos.remove(&id).expect("removes").description(), "Draft the release notes");
    assert!(todos.get(&id).is_err());
    assert!(todos.remove(&id).is_err());
}

#[test]
fn a_refused_description_leaves_the_tick_alone() {
    let mut todos = Todos::default();
    let id = todos.add(todo("Draft the notes")).expect("adds");

    assert!(todos
        .update(
            &id,
            TodoEdit {
                status: Some(TodoStatus::Done),
                description: Some(String::new()),
                ..TodoEdit::default()
            }
        )
        .is_err());
    assert!(todos.get(&id).expect("present").is_open());
}

#[test]
fn refuses_to_add_an_id_that_is_already_there() {
    let mut todos = Todos::default();
    let id = todos.add(todo("First")).expect("adds");

    let clash = Todo::parse(&format!("[ ] Second 🆔 {}", id.as_str())).expect("parses");
    assert!(todos.add(clash).is_err());
    assert_eq!(todos.todos().len(), 1);
}

#[test]
fn refuses_an_id_two_todos_share() {
    let source = "---\n---\n\n## Todos\n\n- [ ] One 🆔 abc123\n- [ ] Two 🆔 abc123\n";
    let todos = Todos::parse(source).expect("parses");

    assert_eq!(todos.todos().len(), 2);
    let id = TodoId::new("abc123").expect("valid");
    let error = todos.position(&id).expect_err("ambiguous");
    assert!(error.message().contains('2'), "{}", error.message());
}

#[test]
fn lists_what_is_scheduled_on_a_day_untimed_first() {
    let source = "---\n---\n\n## Todos\n\n- [ ] Afternoon ⏳ 2026-08-30 14:00\n- [ ] Whenever ⏳ 2026-08-30\n- [ ] Morning ⏳ 2026-08-30 09:00\n- [ ] Tomorrow ⏳ 2026-08-31\n";
    let todos = Todos::parse(source).expect("parses");

    let day: Vec<&str> = todos
        .scheduled_on(date(2026, 8, 30))
        .iter()
        .map(|todo| todo.description())
        .collect();
    assert_eq!(day, ["Whenever", "Morning", "Afternoon"]);
}

#[test]
fn preserves_prose_and_unknown_sections_when_edited() {
    let source = "---\nagent_key: kept\n---\n\n# Todos\n\n## Todos\n\n- [ ] One 🆔 abc123\n\n## Someday\n\nA list I keep myself.\n";
    let mut todos = Todos::parse(source).expect("parses");
    todos.add(todo("Two")).expect("adds");

    let rendered = todos.render();
    assert!(rendered.contains("agent_key: kept"), "{rendered}");
    assert!(rendered.contains("## Someday\n\nA list I keep myself.\n"), "{rendered}");
    assert!(rendered.contains("- [ ] Two"), "{rendered}");
}

#[test]
fn an_emoji_presentation_selector_is_read_and_dropped() {
    let source = "---\n---\n\n## Todos\n\n- [ ] Ship it \u{23f3}\u{fe0f} 2026-08-30\n";
    let todos = Todos::parse(source).expect("parses");

    assert_eq!(todos.todos()[0].scheduled, Some(Stamp::on(date(2026, 8, 30))));
    assert!(!todos.render().contains('\u{fe0f}'), "writes the plain form");
}

#[test]
fn rejects_a_line_that_is_not_a_checkbox() {
    for candidate in ["[ ]", "[] nothing", "no box at all", "[x", ""] {
        assert!(Todo::parse(candidate).is_err(), "{candidate:?}");
    }
}

#[test]
fn a_minted_id_avoids_every_taken_one() {
    let first = TodoId::mint("seed", &[]);
    let second = TodoId::mint("seed", &[TodoId::new(first.as_str()).expect("valid")]);
    assert_ne!(first.as_str(), second.as_str());
    assert_eq!(first.as_str().len(), 6);
}

#[test]
fn matching_narrows_by_status_and_due_date() {
    let source = "---\n---\n\n## Todos\n\n- [ ] Soon 📅 2026-08-30\n- [x] Done 📅 2026-08-29\n- [ ] Later 📅 2026-09-30\n";
    let todos = Todos::parse(source).expect("parses");
    let query = TodoQuery {
        only_open: true,
        due_before: Some(Stamp::on(date(2026, 8, 31))),
        ..TodoQuery::default()
    };
    let found: Vec<&str> = todos.matching(&query).iter().map(|t| t.description()).collect();
    assert_eq!(found, ["Soon"]);
}

#[test]
fn a_second_write_of_messy_todos_changes_nothing() {
    let text = "---\n---\n\n## Todos\n\n* [X]   [[timemd]]  Ship it   📅   2026-08-31    ⏫\n- [?] Odd box ⛔ abc123,  def456 ,\n- [ ] Water 🔁  every day   ⏳ 2026-08-25 09:30\n- not a todo\n";
    let once = Todos::parse(text).expect("parses").render();
    let twice = Todos::parse(&once).expect("parses").render();
    assert_eq!(once, twice);
}

#[test]
fn todos_read_from_messy_lines_read_back_after_a_write() {
    let text = "---\n---\n\n## Todos\n\n- [x]   Ship it   ✅ 2026-08-31   🔼\n";
    let todos = Todos::parse(text).expect("parses");
    let again = Todos::parse(&todos.render()).expect("parses");
    assert_eq!(again.todos(), todos.todos());
    assert!(again.problems().is_empty());
}

#[test]
fn refuses_to_add_an_id_two_todos_already_share() {
    let source = "---\n---\n\n## Todos\n\n- [ ] One 🆔 abc123\n- [ ] Two 🆔 abc123\n";
    let mut todos = Todos::parse(source).expect("parses");
    let clash = Todo::parse("[ ] Three 🆔 abc123").expect("parses");
    assert!(todos.add(clash).is_err());
    assert_eq!(todos.todos().len(), 2);
}

#[test]
fn an_added_todo_gets_the_id_minting_its_description_gives() {
    let source = "---\n---\n\n## Todos\n\n- [ ] One 🆔 abc123\n";
    let mut todos = Todos::parse(source).expect("parses");
    let expected = TodoId::mint("Write the report", &[TodoId::new("abc123").expect("valid")]);
    let id = todos.add(todo("Write the report")).expect("adds");
    assert_eq!(id, expected);
}

#[test]
fn reports_an_unread_todo_line_as_an_invalid_todo() {
    let source = "---\n---\n\n## Todos\n\n- [ ] Fine\n- not a todo\n";
    let todos = Todos::parse(source).expect("parses");
    assert_eq!(todos.problems().len(), 1);
    assert!(matches!(todos.problems()[0].kind, timemd::error::ParseErrorKind::InvalidTodo { .. }));
}

#[test]
fn lists_a_todo_as_its_id_status_description_and_marks() {
    let t = Todo::parse("[ ] [[timemd]] Draft the notes ⏫ 🆔 dcf64c 🔁 every week ⏳ 2026-08-30 14:00 📅 2026-08-31")
        .expect("parses");
    assert_eq!(
        t.list_row(),
        "dcf64c   [ ] Draft the notes  ⏫  [timemd]  due 2026-08-31  at 2026-08-30 14:00  repeats"
    );
    let plain = todo("Call the bank");
    assert_eq!(plain.list_row(), "-        [ ] Call the bank");
}
