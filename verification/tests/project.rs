use timemd::grammar::list_item;
use timemd::project::{Color, Mark, Milestone, ProjectStatus};

fn milestone(done: bool, title: &str) -> Milestone {
    Milestone::new(done, title).expect("valid milestone")
}

#[test]
fn marks_round_trip_through_text() {
    for mark in [
        Mark::Square,
        Mark::Circle,
        Mark::Triangle,
        Mark::Diamond,
        Mark::Bar,
    ] {
        assert_eq!(Mark::parse(&mark.render()).ok(), Some(mark));
    }
    assert!(Mark::parse("hexagon").is_err());
}

#[test]
fn milestones_round_trip_through_their_line() {
    for entry in [milestone(true, "done"), milestone(false, "todo")] {
        let line = entry.render();
        let content = list_item(&line).expect("is a list item");
        assert_eq!(Milestone::parse(&content), Ok(entry));
    }
}

#[test]
fn rejects_a_milestone_line_with_no_checkbox_or_no_title() {
    for candidate in ["[x]", "[ ]", "[x] ", "[y] mistyped", "no box at all"] {
        assert!(
            Milestone::parse(candidate).is_err(),
            "{candidate:?} should be rejected"
        );
    }
}

#[test]
fn refuses_to_build_a_milestone_it_could_not_write() {
    for candidate in ["", "   ", "two\nlines", "carriage\rreturn"] {
        assert!(
            Milestone::new(false, candidate).is_err(),
            "{candidate:?} should be rejected"
        );
    }
    assert_eq!(milestone(true, "  padded  ").title(), "padded");
}

#[test]
fn validates_colours() {
    assert!(Color::new("#4F46E5").is_ok());
    assert_eq!(Color::new("#4F46E5").expect("valid").as_str(), "#4f46e5");
    for candidate in ["4f46e5", "#4f46e", "#gggggg", "", "#4f46e55"] {
        assert!(
            Color::new(candidate).is_err(),
            "{candidate:?} should be rejected"
        );
    }
}

#[test]
fn archived_is_reported() {
    assert!(ProjectStatus::Archived.is_archived());
    assert!(!ProjectStatus::Active.is_archived());
}

#[test]
fn statuses_round_trip_through_text() {
    assert_eq!(
        ProjectStatus::parse("active").ok(),
        Some(ProjectStatus::Active)
    );
    assert_eq!(
        ProjectStatus::parse("archived").ok(),
        Some(ProjectStatus::Archived)
    );
    assert_eq!(ProjectStatus::Active.render(), "active");
    assert_eq!(ProjectStatus::Archived.render(), "archived");
    assert!(ProjectStatus::parse("hibernating").is_err());
}

#[test]
fn a_milestone_line_is_a_checkbox_and_its_title() {
    assert_eq!(milestone(true, "Ch. 1").render(), "- [x] Ch. 1");
    assert_eq!(milestone(false, "Ch. 2").render(), "- [ ] Ch. 2");
    assert_eq!(Milestone::parse("[X] upper").map(|m| m.is_done()), Ok(true));
}

use timemd::clock::CalendarDate;
use timemd::ids::ProjectSlug;
use timemd::minutes::Minutes;
use timemd::project::{MilestoneEdit, Project};

fn slug() -> ProjectSlug {
    ProjectSlug::new("timemd").expect("valid slug")
}

fn date() -> CalendarDate {
    CalendarDate::from_ymd(2026, 8, 1).expect("valid date")
}

fn titles(project: &Project) -> Vec<&str> {
    project.milestones.iter().map(Milestone::title).collect::<Vec<_>>()
}

fn edit(done: Option<bool>, title: Option<&str>, position: Option<usize>) -> MilestoneEdit {
    MilestoneEdit { done, title: title.map(str::to_owned), position }
}

const SAMPLE: &str = "---\nname: timemd\ncolor: '#4f46e5'\nmark: square\ntarget: 10h\nstatus: active\ncreated: 2026-08-01\n---\n\n# timemd\n\nFree-form project notes.\n\n## Milestones\n\n- [x] Ch. 1 — lit review\n- [ ] Ch. 4 — first draft\n";

#[test]
fn parses_the_frontmatter() {
    let project = Project::parse(slug(), SAMPLE).expect("parses");
    assert_eq!(project.name, "timemd");
    assert_eq!(project.color.as_ref().map(Color::as_str), Some("#4f46e5"));
    assert_eq!(project.mark, Mark::Square);
    assert_eq!(project.target, Some(Minutes::new(600)));
    assert_eq!(project.status, ProjectStatus::Active);
    assert_eq!(project.created, Some(date()));
    assert_eq!(project.slug(), &slug());
}

#[test]
fn parses_the_milestone_list() {
    let project = Project::parse(slug(), SAMPLE).expect("parses");
    assert_eq!(
        project.milestones,
        vec![milestone(true, "Ch. 1 — lit review"), milestone(false, "Ch. 4 — first draft")]
    );
    assert!(project.problems().is_empty());
}

#[test]
fn keeps_and_reports_a_malformed_milestone_line() {
    let source = "---\nname: timemd\n---\n\n## Milestones\n\n- [x] done\n- forgot the box\n";
    let project = Project::parse(slug(), source).expect("parses");

    assert_eq!(project.milestones, vec![milestone(true, "done")]);
    assert_eq!(project.problems().len(), 1);
    assert!(project.render().contains("- forgot the box"), "{}", project.render());
}

#[test]
fn writing_milestones_leaves_the_prose_alone() {
    let mut project = Project::parse(slug(), SAMPLE).expect("parses");
    project.milestones.push(milestone(false, "Ch. 5"));

    let rendered = project.render();
    assert!(rendered.contains("- [ ] Ch. 5"), "{rendered}");
    assert!(rendered.contains("Free-form project notes."), "{rendered}");
}

#[test]
fn falls_back_to_a_square_on_an_unrecognised_mark() {
    let project = Project::parse(slug(), "---\nmark: hexagon\n---\n").expect("parses");
    assert_eq!(project.mark, Mark::Square);
}

#[test]
fn drops_an_unreadable_target_rather_than_failing() {
    let project = Project::parse(slug(), "---\ntarget: loads\n---\n").expect("parses");
    assert_eq!(project.target, None);
}

#[test]
fn finds_a_milestone_by_its_title() {
    let project = Project::parse(slug(), SAMPLE).expect("parses");
    assert_eq!(project.milestone_titled("Ch. 1 — lit review").ok(), Some(0));
    assert_eq!(project.milestone_titled("Ch. 4 — first draft").ok(), Some(1));
}

#[test]
fn matches_a_title_after_trimming_it() {
    let project = Project::parse(slug(), SAMPLE).expect("parses");
    assert_eq!(project.milestone_titled("  Ch. 1 — lit review  ").ok(), Some(0));
}

#[test]
fn refuses_a_title_that_names_no_milestone() {
    let project = Project::parse(slug(), SAMPLE).expect("parses");
    let error = project.milestone_titled("Ch. 9").expect_err("no such title");
    assert!(error.message().contains("Ch. 9"), "{}", error.message());
}

#[test]
fn refuses_a_title_two_milestones_share() {
    let source = "---\nname: timemd\n---\n\n## Milestones\n\n- [ ] Ch. 4\n- [x] Ch. 4\n";
    let project = Project::parse(slug(), source).expect("parses");

    assert_eq!(project.milestones.len(), 2);
    let error = project.milestone_titled("Ch. 4").expect_err("ambiguous");
    assert!(error.message().contains('2'), "{}", error.message());
}

#[test]
fn removes_a_milestone_by_its_title() {
    let mut project = Project::parse(slug(), SAMPLE).expect("parses");

    let removed = project.remove_milestone("Ch. 1 — lit review").expect("removes");
    assert_eq!(removed.title(), "Ch. 1 — lit review");
    assert!(removed.done);
    assert_eq!(titles(&project), ["Ch. 4 — first draft"]);

    let error = project.remove_milestone("Ch. 9").expect_err("no such title");
    assert!(error.message().contains("Ch. 9"), "{}", error.message());
    assert_eq!(titles(&project), ["Ch. 4 — first draft"], "a refused removal changes nothing");
}

#[test]
fn inserts_a_milestone_at_a_position_and_past_the_end() {
    let mut project = Project::parse(slug(), SAMPLE).expect("parses");

    assert_eq!(project.insert_milestone(0, milestone(false, "Ch. 0")).ok(), Some(0));
    assert_eq!(project.insert_milestone(99, milestone(false, "Ch. 9")).ok(), Some(3));
    assert_eq!(
        titles(&project),
        ["Ch. 0", "Ch. 1 — lit review", "Ch. 4 — first draft", "Ch. 9"]
    );
}

#[test]
fn no_door_writes_a_title_twice() {
    let mut project = Project::parse(slug(), SAMPLE).expect("parses");

    assert!(
        project.insert_milestone(0, milestone(false, "Ch. 4 — first draft")).is_err(),
        "adding a duplicate"
    );
    assert!(
        project.rename_milestone(0, "Ch. 4 — first draft").is_err(),
        "renaming onto a duplicate"
    );
    assert!(
        project
            .update_milestone("Ch. 1 — lit review", edit(None, Some("Ch. 4 — first draft"), None))
            .is_err(),
        "updating onto a duplicate"
    );
    assert!(
        project
            .set_milestones(vec![milestone(false, "same"), milestone(true, "same")])
            .is_err(),
        "replacing the whole list with a duplicate"
    );

    assert_eq!(
        titles(&project),
        ["Ch. 1 — lit review", "Ch. 4 — first draft"],
        "a refused write changes nothing"
    );

    project
        .rename_milestone(0, "Ch. 1 — lit review")
        .expect("renaming a milestone to the title it already has");
}

#[test]
fn one_update_ticks_retitles_and_moves() {
    let mut project = Project::parse(slug(), SAMPLE).expect("parses");

    let landed = project
        .update_milestone("Ch. 1 — lit review", edit(Some(false), Some("Ch. 1"), Some(1)))
        .expect("updates");

    assert_eq!(landed, 1);
    assert_eq!(titles(&project), ["Ch. 4 — first draft", "Ch. 1"]);
    assert!(!project.milestones[1].done);

    assert!(
        project.update_milestone("Ch. 9", MilestoneEdit::none()).is_err(),
        "a title nothing carries"
    );
}

#[test]
fn a_refused_rename_leaves_the_tick_alone() {
    let mut project = Project::parse(slug(), SAMPLE).expect("parses");

    let error = project
        .update_milestone("Ch. 4 — first draft", edit(Some(true), Some("Ch. 1 — lit review"), None))
        .expect_err("the title is taken");
    assert!(error.message().contains("Ch. 1 — lit review"), "{}", error.message());

    assert!(!project.milestones[1].done, "the tick must not have landed");
    assert_eq!(titles(&project), ["Ch. 1 — lit review", "Ch. 4 — first draft"]);
}

#[test]
fn renaming_goes_through_the_write_side_gate() {
    let mut project = Project::parse(slug(), SAMPLE).expect("parses");

    for candidate in ["", "   ", "two\nlines", "carriage\rreturn"] {
        assert!(
            project.rename_milestone(0, candidate).is_err(),
            "{candidate:?} should be rejected"
        );
    }
    assert_eq!(project.milestones[0].title(), "Ch. 1 — lit review");

    project.rename_milestone(0, "  Ch. 1  ").expect("renames");
    assert_eq!(project.milestones[0].title(), "Ch. 1");
    assert!(project.milestones[0].done, "renaming must not untick it");
}

#[test]
fn refuses_to_rename_a_milestone_that_is_not_there() {
    let mut project = Project::parse(slug(), SAMPLE).expect("parses");
    assert!(project.rename_milestone(7, "Ch. 7").is_err());
}

#[test]
fn moves_a_milestone_forwards_and_backwards() {
    let source = "---\nname: timemd\n---\n\n## Milestones\n\n- [ ] a\n- [ ] b\n- [ ] c\n- [ ] d\n";

    let mut forwards = Project::parse(slug(), source).expect("parses");
    assert_eq!(forwards.move_milestone(0, 2), Some(2));
    assert_eq!(titles(&forwards), ["b", "c", "a", "d"]);

    let mut backwards = Project::parse(slug(), source).expect("parses");
    assert_eq!(backwards.move_milestone(3, 1), Some(1));
    assert_eq!(titles(&backwards), ["a", "d", "b", "c"]);
}

#[test]
fn moving_past_the_end_lands_last_and_moving_nothing_is_none() {
    let mut project = Project::parse(slug(), SAMPLE).expect("parses");

    assert_eq!(project.move_milestone(0, 99), Some(1));
    assert_eq!(titles(&project), ["Ch. 4 — first draft", "Ch. 1 — lit review"]);
    assert_eq!(project.move_milestone(7, 0), None);
}

#[test]
fn round_trips_a_canonical_project() {
    let project = Project::parse(slug(), SAMPLE).expect("parses");
    assert_eq!(project.render(), SAMPLE);
}

#[test]
fn preserves_body_prose_and_unknown_keys_when_edited() {
    let source = "---\nname: timemd\nstatus: active\nnotion_id: abc-123\n---\n\n# timemd\n\nLong-standing notes.\n";
    let mut project = Project::parse(slug(), source).expect("parses");
    project.status = ProjectStatus::Archived;

    let rendered = project.render();
    assert!(rendered.contains("notion_id: abc-123"), "{rendered}");
    assert!(rendered.contains("Long-standing notes."), "{rendered}");
    assert!(rendered.contains("status: archived"), "{rendered}");
}

#[test]
fn falls_back_to_the_slug_when_the_name_is_missing() {
    let project = Project::parse(slug(), "---\nstatus: active\n---\n").expect("parses");
    assert_eq!(project.name, "timemd");
}

#[test]
fn falls_back_to_active_on_an_unrecognised_status() {
    let project = Project::parse(slug(), "---\nstatus: banana\n---\n").expect("parses");
    assert_eq!(project.status, ProjectStatus::Active);
}

#[test]
fn drops_an_unreadable_colour_rather_than_failing() {
    let project = Project::parse(slug(), "---\ncolor: not-a-colour\n---\n").expect("parses");
    assert_eq!(project.color, None);
}

#[test]
fn a_new_project_renders_a_template() {
    let project = Project::new(slug(), "timemd", date());
    assert_eq!(
        project.render(),
        "---\nname: timemd\nmark: square\nstatus: active\ncreated: 2026-08-01\n---\n\n# timemd\n"
    );
}

#[test]
fn a_project_keeps_hand_added_keys_of_every_kind_on_write() {
    let source = "---\nname: Thesis\nstatus: active\naliases:\n- PhD\npinned: true\n---\n\n# Thesis\n";
    let mut project = Project::parse(slug(), source).expect("parses");
    project.name = "Doctoral thesis".to_owned();
    let rendered = project.render();
    assert!(rendered.contains("aliases:\n- PhD\n"), "{rendered}");
    assert!(rendered.contains("pinned: true"), "{rendered}");
    assert!(rendered.contains("name: Doctoral thesis"), "{rendered}");
}
