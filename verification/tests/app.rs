use bukagu::app::{App, DestPlan, Phase, RunOptions};
use bukagu::engine::{Plan, Stats, SyncAction};
use bukagu::message::Message;
use bukagu::path::PathBuf;
use bukagu::store::Config;
use bukagu::ui::dashboard::{
    accumulate, applying_meter, done_lines, done_message, done_title, error_lines, footer_lines,
    handle_key, header_lines, outcome_of, phase_label, review_lines, review_offset, review_title,
    scanning_meter, Outcome,
};
use bukagu::ui::keys::Key;
use bukagu::ui::view::Lines;

fn p(s: &str) -> PathBuf {
    PathBuf::of(s)
}

fn config(n: usize) -> Config {
    let mut destinations = Vec::new();
    for i in 0..n {
        destinations.push(p(&format!("/d{i}")));
    }
    Config { source: p("/src"), destinations }
}

fn nonempty_plan() -> Plan {
    let actions = vec![SyncAction::Copy { rel_path: p("a.txt"), size: 5 }];
    let stats = Stats { copies: 1, bytes: 5, ..Default::default() };
    Plan { actions, stats }
}

fn plan_for(app: &mut App, dest: &str, plan: Plan) {
    app.on_message(Message::Planned { destination: p(dest), plan });
}

fn texts(lines: &Lines) -> Vec<String> {
    let mut out = Vec::new();
    for l in lines.lines.iter() {
        let mut s = String::new();
        for span in l.spans.iter() {
            s.push_str(&span.text);
        }
        out.push(s);
    }
    out
}

#[test]
fn all_destinations_planned_moves_to_review() {
    let mut app = App::new(config(2), RunOptions::default());
    plan_for(&mut app, "/d0", nonempty_plan());
    assert_eq!(app.phase, Phase::Scanning, "still waiting on /d1");
    plan_for(&mut app, "/d1", nonempty_plan());
    assert_eq!(app.phase, Phase::Review);
    assert_eq!(app.total_actions(), 2);
}

#[test]
fn yes_skips_review_and_goes_straight_to_applying() {
    let opts = RunOptions { yes: true, ..Default::default() };
    let mut app = App::new(config(1), opts);
    plan_for(&mut app, "/d0", nonempty_plan());
    assert_eq!(app.phase, Phase::Applying);
}

#[test]
fn empty_plans_finish_as_done_with_nothing_to_do() {
    let mut app = App::new(config(1), RunOptions::default());
    plan_for(&mut app, "/d0", Plan::default());
    assert_eq!(app.phase, Phase::Done);
    assert!(app.nothing_to_do());
}

#[test]
fn confirm_moves_review_to_applying() {
    let mut app = App::new(config(1), RunOptions::default());
    plan_for(&mut app, "/d0", nonempty_plan());
    assert_eq!(app.phase, Phase::Review);
    app.confirm();
    assert_eq!(app.phase, Phase::Applying);
}

#[test]
fn done_message_records_stats() {
    let mut app = App::new(config(1), RunOptions::default());
    plan_for(&mut app, "/d0", nonempty_plan());
    app.confirm();
    app.on_message(Message::Done {
        stats: Stats { copies: 1, bytes: 5, ..Default::default() },
    });
    assert_eq!(app.phase, Phase::Done);
    assert_eq!(app.stats.unwrap().copies, 1);
}

#[test]
fn worker_error_shows_error_phase() {
    let mut app = App::new(config(1), RunOptions::default());
    app.on_message(Message::Error { message: "boom".into() });
    assert_eq!(app.phase, Phase::Error);
    assert_eq!(app.error.as_deref(), Some("boom"));
}

#[test]
fn apply_progress_sums_across_destinations() {
    let mut app = App::new(config(2), RunOptions::default());
    plan_for(&mut app, "/d0", nonempty_plan());
    plan_for(&mut app, "/d1", nonempty_plan());
    app.on_message(Message::Applied { destination: p("/d0"), done: 1, total: 1 });
    app.on_message(Message::Applied { destination: p("/d1"), done: 1, total: 1 });
    assert_eq!(app.applied_actions(), 2);
    assert_eq!(app.total_actions(), 2);
}

#[test]
fn progress_at_a_destination_replaces_the_earlier_report() {
    let mut app = App::new(config(1), RunOptions::default());
    app.on_message(Message::Applied { destination: p("/d0"), done: 1, total: 3 });
    app.on_message(Message::Applied { destination: p("/d0/"), done: 2, total: 3 });
    assert_eq!(app.applied_actions(), 2);
    assert_eq!(app.apply_progress.len(), 1);
}

#[test]
fn scanned_message_is_shown_in_the_status() {
    let mut app = App::new(config(1), RunOptions::default());
    assert_eq!(app.status, "Scanning…");
    app.on_message(Message::Scanned { root: p("/src"), count: 12 });
    assert_eq!(app.status, "Scanned /src (12 entries)…");
}

#[test]
fn review_hint_names_changes_and_destinations() {
    let mut app = App::new(config(1), RunOptions { dry_run: true, ..Default::default() });
    plan_for(&mut app, "/d0", nonempty_plan());
    assert_eq!(
        app.status,
        "1 change(s) across 1 destination(s).  [Enter/y] preview   [q] cancel"
    );
}

#[test]
fn done_status_tells_dry_runs_apart() {
    let mut app = App::new(config(1), RunOptions { dry_run: true, ..Default::default() });
    app.on_message(Message::Done { stats: Stats::default() });
    assert_eq!(app.status, "Dry run complete — nothing was written.");
    let mut app = App::new(config(1), RunOptions::default());
    app.on_message(Message::Done { stats: Stats::default() });
    assert_eq!(app.status, "Sync complete.");
}

#[test]
fn scrolling_stops_at_both_ends() {
    let mut app = App::new(config(1), RunOptions::default());
    plan_for(&mut app, "/d0", nonempty_plan());
    assert_eq!(app.review_line_count(), 2);
    app.scroll_up();
    assert_eq!(app.review_scroll, 0);
    app.scroll_down();
    app.scroll_down();
    assert_eq!(app.review_scroll, 1);
    app.page_down();
    assert_eq!(app.review_scroll, 1);
    app.page_up();
    assert_eq!(app.review_scroll, 0);
}

#[test]
fn keys_follow_the_phase() {
    let mut app = App::new(config(1), RunOptions::default());
    handle_key(&mut app, Key::Enter);
    assert!(!app.should_quit);
    plan_for(&mut app, "/d0", nonempty_plan());
    handle_key(&mut app, Key::Char('j'));
    assert_eq!(app.review_scroll, 1);
    handle_key(&mut app, Key::Char('y'));
    assert_eq!(app.phase, Phase::Applying);
    handle_key(&mut app, Key::Char('q'));
    assert!(!app.should_quit, "no quitting while changes are applied");
    app.on_message(Message::Done { stats: Stats::default() });
    handle_key(&mut app, Key::Enter);
    assert!(app.should_quit);
}

#[test]
fn outcomes_follow_the_state() {
    let mut app = App::new(config(1), RunOptions::default());
    assert_eq!(outcome_of(&app), Outcome::Cancelled);
    plan_for(&mut app, "/d0", Plan::default());
    assert_eq!(outcome_of(&app), Outcome::UpToDate);

    let stats = Stats { copies: 1, bytes: 5, ..Default::default() };
    let mut app = App::new(config(1), RunOptions::default());
    plan_for(&mut app, "/d0", nonempty_plan());
    app.on_message(Message::Done { stats });
    assert_eq!(outcome_of(&app), Outcome::Applied(stats));

    let mut app = App::new(config(1), RunOptions { dry_run: true, ..Default::default() });
    plan_for(&mut app, "/d0", nonempty_plan());
    app.on_message(Message::Done { stats });
    assert_eq!(outcome_of(&app), Outcome::Preview(stats));
}

#[test]
fn totals_add_up_over_destinations() {
    let plans = vec![
        DestPlan { destination: p("/d0"), plan: nonempty_plan() },
        DestPlan { destination: p("/d1"), plan: nonempty_plan() },
    ];
    match done_message(&plans) {
        Message::Done { stats } => {
            assert_eq!(stats, Stats { copies: 2, bytes: 10, ..Default::default() })
        }
        other => panic!("expected Done, got {other:?}"),
    }
    let mut total = Stats { deletes: 1, ..Default::default() };
    accumulate(&mut total, &Stats { deletes: 2, create_dirs: 4, ..Default::default() });
    assert_eq!(total, Stats { deletes: 3, create_dirs: 4, ..Default::default() });
}

#[test]
fn dashboard_lines_show_the_plan() {
    let mut app =
        App::new(config(1), RunOptions { dry_run: true, yes: false, delete: true });
    let mut plan = nonempty_plan();
    plan.actions.push(SyncAction::Delete { rel_path: p("old.txt"), is_dir: false });
    plan_for(&mut app, "/d0", plan);

    assert_eq!(
        texts(&header_lines(&app)),
        vec![
            "bukagu  ·  sync dashboard",
            "Review the planned changes",
            "Source:  /src",
            "Destinations: 1   [dry-run]   [delete-extras]",
        ]
    );
    assert_eq!(
        texts(&review_lines(&app)),
        vec!["/d0  (2 change(s))", "    copy   a.txt   5 B", "    delete old.txt"]
    );
    assert_eq!(review_title(&app), "planned changes (preview)");
    assert_eq!(done_title(&app), "preview");
    assert_eq!(scanning_meter(&app).label, "1/1 destinations planned");
    assert_eq!(applying_meter(&app).label, "0/2 actions");
    assert_eq!(phase_label(Phase::Error), "Error");
    assert_eq!(
        texts(&footer_lines(&app))[0],
        "↑/↓ scroll   PgUp/PgDn page   [Enter/y] apply   [q] cancel"
    );
}

#[test]
fn dashboard_summary_counts_by_kind() {
    let mut app = App::new(config(1), RunOptions::default());
    plan_for(&mut app, "/d0", nonempty_plan());
    app.on_message(Message::Done {
        stats: Stats { create_dirs: 2, copies: 1, overwrites: 0, deletes: 12, bytes: 1536 },
    });
    assert_eq!(
        texts(&done_lines(&app)),
        vec![
            "Sync complete. Applied:",
            "",
            "      2  directories created",
            "      1  files copied",
            "      0  files updated",
            "     12  files deleted",
            "",
            "    data:  1.5 KiB",
        ]
    );
    let mut app = App::new(config(1), RunOptions::default());
    assert_eq!(texts(&error_lines(&app))[2], "Unknown error.");
    app.on_message(Message::Error { message: "boom".into() });
    assert_eq!(texts(&error_lines(&app)), vec!["The sync could not complete:", "", "boom"]);
}

#[test]
fn review_offset_never_leaves_rows_empty() {
    assert_eq!(review_offset(100, 12, 5), 5);
    assert_eq!(review_offset(100, 12, 99), 90);
    assert_eq!(review_offset(5, 12, 3), 0);
    assert_eq!(review_offset(5, 1, 9), 4);
}
