use bukagu::path::PathBuf;
use bukagu::resolve::{Place, Resolver};
use bukagu::store::{Config, Mapping};
use bukagu::ui::browser::{
    conflict_reason, intent_of, source_conflict, Browser, Conflict, HomeIntent, InfoTarget,
    MainFocus, Mode, Outcome, PickTarget, QuitChoice,
};
use bukagu::ui::browser_view::{
    actions_lines, empty_listing, footer_lines, header_lines, help_lines, info_rows, modal_lines,
    modal_title, quit_buttons, quit_question, FolderStats, InfoFacts,
};
use bukagu::ui::groups::group_mappings;
use bukagu::ui::keys::Key;
use bukagu::ui::listing::{read_subdirs, FolderItem};
use bukagu::ui::view::{centered, Area, Line, Lines};

fn p(s: &str) -> PathBuf {
    PathBuf::of(s)
}

fn none() -> Resolver {
    Resolver::new()
}

fn new() -> Browser {
    Browser::new(p("/work/app"))
}

fn with_source(source: &str) -> Browser {
    let mut b = new();
    b.source = Some(p(source));
    b
}

fn line_text(l: &Line) -> String {
    let mut s = String::new();
    for span in l.spans.iter() {
        s.push_str(&span.text);
    }
    s
}

fn texts(lines: &Lines) -> Vec<String> {
    lines.lines.iter().map(line_text).collect()
}

fn press(b: &mut Browser, key: Key) -> Option<PathBuf> {
    b.on_key(key, false, &none())
}

fn facts(source_files: usize, open_files: usize, is_file: Vec<bool>) -> InfoFacts {
    InfoFacts {
        source_stats: FolderStats { bytes: 2, files: source_files },
        is_file,
        open_stats: FolderStats { bytes: 4, files: open_files },
    }
}

#[test]
fn read_subdirs_lists_only_dirs_sorted() {
    let items = vec![
        FolderItem { path: p("/r/Zeta"), is_dir: true },
        FolderItem { path: p("/r/alpha"), is_dir: true },
        FolderItem { path: p("/r/a-file.txt"), is_dir: false },
    ];
    let mut names = Vec::new();
    for d in read_subdirs(&items) {
        names.push(d.file_name_text().unwrap());
    }
    assert_eq!(names, vec!["alpha", "Zeta"]);
}

#[test]
fn folders_of_the_same_name_keep_their_order() {
    let items = vec![
        FolderItem { path: p("/r/B"), is_dir: true },
        FolderItem { path: p("/r/b"), is_dir: true },
        FolderItem { path: p("/r/A"), is_dir: true },
    ];
    assert_eq!(read_subdirs(&items), vec![p("/r/A"), p("/r/B"), p("/r/b")]);
}

#[test]
fn set_source_records_the_path() {
    let mut b = new();
    b.set_source(p("/t/master"));
    assert_eq!(b.source, Some(p("/t/master")));
    assert_eq!(b.status, "Source set. Now add one or more destinations.");
}

#[test]
fn destination_must_not_be_or_touch_the_source() {
    let b = with_source("/t/master");
    assert!(b.validate_destination(&p("/t/master")).is_err(), "source itself");
    assert!(b.validate_destination(&p("/t/master/sub")).is_err(), "inside source");
    assert!(b.validate_destination(&p("/t")).is_err(), "contains source");
    assert!(b.validate_destination(&p("/t/backup")).is_ok(), "valid sibling");
}

#[test]
fn source_is_disabled_in_the_destination_picker() {
    let mut b = with_source("/t/master");
    b.mode = Mode::Browsing(PickTarget::Destination);
    assert_eq!(b.dest_conflict(&p("/t/master"), &none()), Some(Conflict::IsSource));
    assert_eq!(b.dest_conflict(&p("/t/master/sub"), &none()), Some(Conflict::Inside));
    assert_eq!(b.dest_conflict(&p("/t"), &none()), Some(Conflict::Contains));
    assert_eq!(b.dest_conflict(&p("/t/backup"), &none()), None, "a safe sibling is selectable");

    b.entries = vec![p("/t/master")];
    b.browse_sel = Some(0);
    b.browse_select(&none());
    assert!(b.destinations.is_empty(), "source can't be added as a destination");
    assert!(!b.status_is_error, "a disabled row gives a calm note, not an error");
    assert_eq!(b.status, conflict_reason(Conflict::IsSource));
}

#[test]
fn draw_modal_grays_out_the_disabled_source() {
    let mut b = with_source("/t/master");
    b.mode = Mode::Browsing(PickTarget::Destination);
    b.entries = vec![p("/t/master"), p("/t/backup")];
    b.browse_sel = Some(1);
    let lines = texts(&modal_lines(&b, &none()));
    assert!(
        lines[0].contains("✗ source folder"),
        "the source row is tagged as a disabled destination"
    );
    assert_eq!(
        lines,
        vec!["master/  ✗ source folder", "backup/   Space to select · Enter/→ to open"]
    );
    assert_eq!(modal_title(&b), " /work/app ");
    assert!(empty_listing(&b).starts_with("(no subfolders here — Space selects"));
}

#[test]
fn choosing_an_existing_destination_as_the_new_source_drops_it() {
    let mut b = with_source("/t/s0");
    b.destinations = vec![p("/t/a"), p("/t/b")];
    b.set_source(p("/t/a"));
    assert_eq!(b.source, Some(p("/t/a")));
    assert_eq!(b.destinations, vec![p("/t/b")], "`a` removed");
    assert!(b.status_is_error, "the pruning is reported as a warning");
    assert_eq!(b.status, "Source set — dropped 1 destination(s) that overlapped it.");
}

#[test]
fn add_destination_requires_a_source_first() {
    let mut b = new();
    assert!(b.add_destination(p("/t/backup")).is_err(), "no source yet");
    assert!(b.destinations.is_empty());
}

#[test]
fn duplicate_destination_is_rejected() {
    let mut b = with_source("/t/master");
    assert!(b.add_destination(p("/t/backup")).is_ok());
    assert!(b.add_destination(p("/t/backup")).is_err(), "already added");
    assert_eq!(b.destinations.len(), 1);
}

#[test]
fn choosing_source_prunes_conflicting_destinations() {
    let mut b = with_source("/t/outside");
    b.destinations = vec![p("/t/outside"), p("/t/parent/a"), p("/t/parent/b")];
    b.set_source(p("/t/parent"));
    assert_eq!(b.source, Some(p("/t/parent")));
    assert_eq!(b.destinations, vec![p("/t/outside")]);
    assert!(b.status_is_error, "pruning is reported as a warning");
}

#[test]
fn activate_destination_action_requires_source() {
    let mut b = new();
    b.actions_sel = 1; // "Select destination folder"
    b.activate_action();
    assert_eq!(b.mode, Mode::Main, "no source → modal does not open");
    assert!(b.status_is_error);

    b.source = Some(p("/somewhere"));
    b.activate_action();
    assert_eq!(b.mode, Mode::Browsing(PickTarget::Destination));
}

#[test]
fn activate_source_action_opens_browser() {
    let mut b = new();
    b.actions_sel = 0;
    assert_eq!(b.activate_action(), Some(p("/work/app")), "the launch folder is listed");
    assert_eq!(b.mode, Mode::Browsing(PickTarget::Source));
}

#[test]
fn info_accordion_reveals_list_and_expands_one_at_a_time() {
    let mut b = with_source("/t/src");
    b.destinations = vec![p("/t/a"), p("/t/b")];
    assert!(!b.info_dest_list_open);
    assert_eq!(b.info_len(&none()), 1);

    b.info_enter(&none());
    assert!(b.info_dest_list_open);
    assert_eq!(b.info_len(&none()), 3, "header + 2 destinations");

    b.info_down(&none());
    assert_eq!(b.info_sel, 1);
    b.info_enter(&none());
    assert_eq!(b.info_dest_expanded, Some(0));

    b.info_down(&none());
    b.info_enter(&none());
    assert_eq!(b.info_dest_expanded, Some(1));

    b.info_enter(&none());
    assert_eq!(b.info_dest_expanded, None);

    b.info_back();
    assert!(!b.info_dest_list_open);
    assert_eq!(b.info_sel, 0);
}

fn two_destinations() -> Browser {
    let mut b = with_source("/src");
    b.destinations = vec![p("/d0"), p("/d1")];
    b.mappings = vec![
        Mapping { source_rel: p("zods/api.ts"), targets: vec![p("/d0/api.ts"), p("/d1/x.ts")] },
        Mapping { source_rel: p("docs/licence.txt"), targets: vec![p("/d0/later.txt")] },
    ];
    b
}

#[test]
fn info_accordion_nests_source_folders_one_open_at_a_time() {
    let mut b = two_destinations();
    b.info_enter(&none()); // reveal the destination list
    b.info_down(&none()); // onto d0
    b.info_enter(&none()); // expand d0
    assert_eq!(b.info_dest_expanded, Some(0));

    let targets = b.info_targets(&none());
    assert!(matches!(targets.get(2), Some(InfoTarget::Folder(0))));
    assert!(matches!(targets.get(3), Some(InfoTarget::Folder(1))));
    assert!(matches!(targets.get(4), Some(InfoTarget::Dest(1))));

    b.info_sel = 2;
    b.info_enter(&none());
    assert_eq!(b.info_folder_expanded, Some(0));
    b.info_sel = 3;
    b.info_enter(&none());
    assert_eq!(b.info_folder_expanded, Some(1));

    b.info_sel = 4;
    b.info_enter(&none());
    assert_eq!(b.info_dest_expanded, Some(1));
    assert_eq!(b.info_folder_expanded, None);

    b.info_sel = 3; // d1's one source-folder group
    b.info_enter(&none());
    assert_eq!(b.info_folder_expanded, Some(0));
    b.info_back();
    assert_eq!(b.info_folder_expanded, None);
    assert_eq!(b.info_dest_expanded, Some(1));
    b.info_back();
    assert_eq!(b.info_dest_expanded, None);
}

#[test]
fn mapped_files_are_grouped_by_source_folder() {
    let b = two_destinations();
    let groups = group_mappings(&b.mappings, &p("/d0"));
    assert_eq!(groups.len(), 2);
    assert_eq!(groups[0].folder, p("docs"));
    assert_eq!(groups[0].files[0].name, p("licence.txt"));
    assert_eq!(groups[1].folder, p("zods"));
    assert_eq!(groups[1].files[0].rel, p("api.ts"));
    assert!(group_mappings(&b.mappings, &p("/d2")).is_empty());
    assert_eq!(b.dest_mapped(&p("/d0"), &none()), 2);
    let linked = Resolver {
        known: vec![Place { path: p("/link"), resolved: p("/d1") }],
    };
    assert_eq!(b.dest_mapped(&p("/link"), &linked), 1);

    let maps = vec![
        Mapping { source_rel: p("b.ts"), targets: vec![p("/d/z.ts"), p("/d/a.ts")] },
        Mapping { source_rel: p("a.ts"), targets: vec![p("/d/m.ts")] },
    ];
    let groups = group_mappings(&maps, &p("/d"));
    assert_eq!(groups.len(), 1, "both lie at the source root");
    let mut rels = Vec::new();
    for f in &groups[0].files {
        rels.push(f.rel.display());
    }
    assert_eq!(rels, vec!["a.ts", "m.ts", "z.ts"]);
}

#[test]
fn draw_info_shows_source_and_expanded_destination_stats() {
    let mut b = with_source("/t/src");
    b.destinations = vec![p("/t/dst")];
    b.mappings =
        vec![Mapping { source_rel: p("hello.txt"), targets: vec![p("/t/dst/inside.txt")] }];
    b.main_focus = MainFocus::Info;
    b.info_enter(&none());
    b.info_down(&none());
    b.info_enter(&none());
    b.info_down(&none());
    b.info_enter(&none());

    let rows = info_rows(&b, &none(), &facts(1, 2, vec![true]));
    let lines = texts(&rows.lines);
    assert_eq!(
        lines,
        vec![
            "Source  /t/src",
            "    2 B  ·  1 file  ·  1 mapped",
            "",
            "▾ Destination Folders (1)",
            "  ▾ /t/dst",
            "      4 B  ·  2 files  ·  1 mapped",
            "      ▾ (source root)  (1)",
            "          hello.txt  →  inside.txt",
        ]
    );
    assert_eq!(rows.stops, vec![3, 4, 6]);
    assert_eq!(rows.selected(b.info_sel), Some(6));
    assert_eq!(rows.stops.len(), b.info_len(&none()));
}

#[test]
fn draw_home_shows_sync_now_action_and_last_run() {
    let config = Config { source: p("/t/src"), destinations: vec![p("/t/dst")] };
    let b = Browser::home(
        p("/work/app"),
        Some(config),
        Vec::new(),
        Some("Everything is already in sync — nothing to do.".into()),
    );
    let mut rendered = texts(&actions_lines(&b)).join("\n");
    rendered.push_str(&texts(&info_rows(&b, &none(), &facts(0, 0, vec![])).lines).join("\n"));
    assert!(rendered.contains("Sync now"), "the Sync now action is shown");
    assert!(rendered.contains("Last run"), "the previous sync result is shown");
    assert!(rendered.contains("already in sync"), "the last-run summary text is shown");
    assert_eq!(
        texts(&actions_lines(&b))[1],
        "Select destination folder  (1 added)"
    );
    assert_eq!(
        texts(&header_lines(&b)),
        vec!["bukagu  ·  home", "Root Project  /work/app"]
    );
    assert_eq!(texts(&header_lines(&new()))[0], "bukagu  ·  first-run setup");
    assert_eq!(texts(&footer_lines(&b))[0], b.status);
}

#[test]
fn clamp_info_drops_a_stale_expanded_destination() {
    let mut b = new();
    b.destinations = vec![p("/d0"), p("/d1")];
    b.info_dest_list_open = true;
    b.info_dest_expanded = Some(1);
    b.info_sel = 2;
    b.destinations.truncate(1);
    b.clamp_info(&none());
    assert_eq!(b.info_dest_expanded, None, "index 1 no longer exists");
    assert_eq!(b.info_sel, 1, "cursor pulled back into range");
}

#[test]
fn tab_cycles_main_focus() {
    let mut b = new();
    assert_eq!(b.main_focus, MainFocus::Actions);
    b.cycle_main_focus();
    assert_eq!(b.main_focus, MainFocus::Info);
    b.cycle_main_focus();
    assert_eq!(b.main_focus, MainFocus::Actions);
}

#[test]
fn ctrl_q_toggles_help() {
    let mut b = new();
    assert!(!b.show_help);
    b.on_key(Key::Char('q'), true, &none());
    assert!(b.show_help);
    press(&mut b, Key::Char('j'));
    assert!(!b.show_help);
    assert_eq!(b.actions_sel, 0, "the key only closes the overlay");
    let help = texts(&help_lines());
    assert_eq!(help.len(), 30);
    assert_eq!(help[2], "  ↑ / ↓           choose an action");
    assert_eq!(help[29], "  Press any key to close.");
}

#[test]
fn confirm_needs_source_and_a_destination() {
    let mut b = new();
    b.confirm();
    assert!(b.outcome.is_none(), "nothing chosen");
    b.source = Some(p("/src"));
    b.confirm();
    assert!(b.outcome.is_none(), "no destination yet");
    b.destinations.push(p("/dst"));
    b.confirm();
    assert!(matches!(b.outcome, Some(Outcome::Confirmed)), "source + destination → Sync now");
}

fn ready_then(action: usize) -> Option<Outcome> {
    let mut b = new();
    b.actions_sel = action;
    b.activate_action(); // no source/dest yet → refuses, stays put
    assert!(b.outcome.is_none());
    assert!(b.status_is_error);
    b.source = Some(p("/src"));
    b.destinations.push(p("/dst"));
    b.activate_action();
    b.outcome
}

#[test]
fn sync_now_action_confirms_when_ready() {
    assert!(matches!(ready_then(2), Some(Outcome::Confirmed)));
}

#[test]
fn map_files_action_opens_mappings_when_ready() {
    assert!(matches!(ready_then(3), Some(Outcome::OpenMappings)));
}

#[test]
fn backup_now_action_opens_backup_when_ready() {
    assert!(matches!(ready_then(4), Some(Outcome::OpenBackup)));
}

#[test]
fn home_prefills_from_a_loaded_config_and_reads_it_back() {
    let config = Config { source: p("/src"), destinations: vec![p("/d0"), p("/d1")] };
    let b = Browser::home(
        p("/work/app"),
        Some(config.clone()),
        Vec::new(),
        Some("Last run — all good.".into()),
    );
    assert_eq!(b.source, Some(config.source.clone()));
    assert_eq!(b.destinations, config.destinations);
    assert_eq!(b.last_run.as_deref(), Some("Last run — all good."));
    assert_eq!(b.current_config(), Some(config));
    assert_eq!(new().current_config(), None);
}

#[test]
fn space_toggles_a_destination_in_then_out() {
    let mut b = with_source("/t/master");
    b.mode = Mode::Browsing(PickTarget::Destination);
    b.entries = vec![p("/t/backup")];
    b.browse_sel = Some(0);
    b.browse_select(&none());
    assert_eq!(b.destinations, vec![p("/t/backup")]);
    assert_eq!(b.mode, Mode::Browsing(PickTarget::Destination), "stays open");
    b.browse_select(&none());
    assert!(b.destinations.is_empty(), "toggled back off");
    assert_eq!(b.mode, Mode::Browsing(PickTarget::Destination), "still open");
}

#[test]
fn space_selects_and_enter_opens_in_the_modal() {
    let mut b = with_source("/t/master");
    b.mode = Mode::Browsing(PickTarget::Destination);
    b.cwd = p("/t");
    b.entries = vec![p("/t/backup")];
    b.browse_sel = Some(0);
    press(&mut b, Key::Char(' '));
    assert_eq!(b.destinations, vec![p("/t/backup")], "Space selects");
    let list = press(&mut b, Key::Enter);
    assert_eq!(list, Some(p("/t/backup")));
    assert_eq!(b.cwd, p("/t/backup"), "Enter opens the folder");
    assert_eq!(b.destinations, vec![p("/t/backup")], "Enter didn't toggle the selection");
}

#[test]
fn picking_the_source_returns_to_the_main_view() {
    let mut b = new();
    b.destinations = vec![p("/t/a"), p("/t/b")];
    b.info_dest_list_open = true;
    b.info_dest_expanded = Some(1);
    b.info_sel = 2;
    press(&mut b, Key::Char('s'));
    b.set_listing(vec![p("/work/app/x")]);
    let known = Resolver {
        known: vec![Place { path: p("/work/app/x"), resolved: p("/t/b") }],
    };
    b.on_key(Key::Char(' '), false, &known);
    assert_eq!(b.source, Some(p("/t/b")), "the pick is resolved");
    assert_eq!(b.mode, Mode::Main);
    assert_eq!(b.destinations, vec![p("/t/a")]);
    assert_eq!(b.info_dest_expanded, None);
    assert_eq!(b.info_sel, 1);
}

#[test]
fn going_up_highlights_the_folder_that_was_left() {
    let mut b = new();
    b.actions_sel = 0;
    b.activate_action();
    b.set_listing(Vec::new());
    assert_eq!(b.browse_sel, None);
    assert_eq!(b.browse_target(), p("/work/app"));
    press(&mut b, Key::Enter);
    assert!(b.status_is_error, "nothing to open");
    assert_eq!(press(&mut b, Key::Backspace), Some(p("/work")));
    b.set_listing(vec![p("/work/aaa"), p("/work/app"), p("/work/zzz")]);
    assert_eq!(b.browse_sel, Some(1));
    press(&mut b, Key::Down);
    press(&mut b, Key::Down);
    assert_eq!(b.browse_sel, Some(2));
    press(&mut b, Key::Up);
    assert_eq!(b.browse_target(), p("/work/app"));
    b.cwd = p("/");
    assert_eq!(press(&mut b, Key::Left), None);
    assert_eq!(b.status, "Already at the filesystem root.");
}

#[test]
fn jump_to_root_returns_to_the_launch_folder() {
    let mut b = new();
    let root = b.root.clone();
    b.cwd = root.parent().unwrap_or(root.clone());
    b.set_listing(vec![p("/work/app")]);
    assert_eq!(b.browse_to_root(), Some(p("/work/app")));
    assert_eq!(b.cwd, root);
    assert_eq!(b.browse_to_root(), None);
    assert_eq!(b.status, "Already at the launch folder.");
}

#[test]
fn esc_on_main_opens_quit_confirmation_focused_on_cancel() {
    let mut b = new();
    press(&mut b, Key::Esc);
    assert_eq!(
        b.quit_prompt,
        Some(QuitChoice::Cancel),
        "Esc asks first, focused on Cancel so a stray Enter is harmless"
    );
    assert!(b.outcome.is_none(), "the app has not quit yet");
}

#[test]
fn confirming_the_quit_dialog_leaves_the_home() {
    let mut b = new();
    b.prompt_quit();
    press(&mut b, Key::Left);
    assert_eq!(b.quit_prompt, Some(QuitChoice::Confirm));
    press(&mut b, Key::Enter);
    assert!(b.quit_prompt.is_none(), "the dialog closes");
    assert!(matches!(b.outcome, Some(Outcome::Cancelled)), "confirming quits the home");
}

#[test]
fn cancelling_the_quit_dialog_keeps_bukagu_open() {
    let mut b = new();
    b.prompt_quit();
    press(&mut b, Key::Enter);
    assert!(b.quit_prompt.is_none(), "the dialog is dismissed");
    assert!(b.outcome.is_none(), "still on the home");
}

#[test]
fn esc_dismisses_the_quit_dialog_without_quitting() {
    let mut b = new();
    b.prompt_quit();
    press(&mut b, Key::Esc);
    assert!(b.quit_prompt.is_none(), "a second Esc backs out of the dialog");
    assert!(b.outcome.is_none(), "and does not quit");
}

#[test]
fn quit_dialog_renders_prompt_and_buttons() {
    let rendered = format!("{}{}", quit_question(), line_text(&quit_buttons(QuitChoice::Cancel)));
    assert!(rendered.contains("Do you really want to close Bukagu?"));
    assert!(rendered.contains("Confirm"));
    assert!(rendered.contains("Cancel"));
    let buttons = quit_buttons(QuitChoice::Cancel);
    assert!(!buttons.spans[0].style.bold && buttons.spans[2].style.bold);
}

#[test]
fn main_keys_jump_to_the_actions() {
    let mut b = with_source("/src");
    b.destinations = vec![p("/dst")];
    press(&mut b, Key::Char('m'));
    assert_eq!(b.outcome, Some(Outcome::OpenMappings));
    assert_eq!(b.actions_sel, 3);
    press(&mut b, Key::Char('b'));
    assert_eq!(b.outcome, Some(Outcome::OpenBackup));
    press(&mut b, Key::Char('c'));
    assert_eq!(b.outcome, Some(Outcome::Confirmed));
    b.actions_sel = 4;
    press(&mut b, Key::Down);
    assert_eq!(b.actions_sel, 4, "stops at the last action");
    press(&mut b, Key::Char('k'));
    assert_eq!(b.actions_sel, 3);
    press(&mut b, Key::Tab);
    press(&mut b, Key::Enter);
    assert!(b.info_dest_list_open);
    press(&mut b, Key::Backspace);
    assert!(!b.info_dest_list_open);
    assert_eq!(intent_of(Outcome::Confirmed), HomeIntent::Sync);
    assert_eq!(intent_of(Outcome::OpenMappings), HomeIntent::Mappings);
    assert_eq!(intent_of(Outcome::OpenBackup), HomeIntent::Backup);
    assert_eq!(intent_of(Outcome::Cancelled), HomeIntent::Quit);
}

#[test]
fn conflicts_are_told_apart() {
    assert_eq!(source_conflict(&p("/s/"), &p("/s")), Some(Conflict::IsSource));
    assert_eq!(source_conflict(&p("/s/x"), &p("/s")), Some(Conflict::Inside));
    assert_eq!(source_conflict(&p("/"), &p("/s")), Some(Conflict::Contains));
    assert_eq!(source_conflict(&p("/sx"), &p("/s")), None);
}

#[test]
fn mapped_sources_are_counted_where_they_exist() {
    assert_eq!(new().source_mapped(&vec![true]), 0, "no source yet");
    assert_eq!(with_source("/s").source_mapped(&vec![true, false, true]), 2);
}

#[test]
fn centered_areas_fit() {
    let area = Area { x: 0, y: 0, width: 80, height: 16 };
    let c = centered(area, 64, 9);
    assert_eq!(c, Area { x: 8, y: 3, width: 64, height: 9 });
    let c = centered(Area { x: 2, y: 1, width: 10, height: 4 }, 64, 9);
    assert_eq!(c, Area { x: 2, y: 1, width: 10, height: 4 });
}

#[test]
fn the_hints_name_space_for_picking() {
    let mut b = with_source("/t/master");
    press(&mut b, Key::Char('s'));
    assert_eq!(b.status, "Pick the SOURCE folder — Space to choose, Esc cancels.");
    b.set_listing(vec![]);
    press(&mut b, Key::Enter);
    assert_eq!(b.status, "No subfolders here — Space picks this folder, ← goes up.");
    press(&mut b, Key::Esc);
    press(&mut b, Key::Char('a'));
    assert_eq!(
        b.status,
        "Pick DESTINATION folders — Space selects, Space again deselects, Esc when done."
    );
    b.set_listing(vec![p("/t/backup")]);
    press(&mut b, Key::Char(' '));
    assert_eq!(
        b.status,
        "Added destination (1 total). Space again to deselect, Esc when done."
    );
}

#[test]
fn the_home_opens_on_its_actions() {
    let b = Browser::home(p("/work/app"), None, Vec::new(), None);
    assert!(b.mode == Mode::Main && b.actions_sel == 0 && b.info_sel == 0);
    assert!(!b.show_help && b.quit_prompt.is_none() && !b.status_is_error);
    assert!(!b.info_dest_list_open && b.entries.is_empty() && b.browse_sel.is_none());
}

#[test]
fn backup_now_needs_only_a_source() {
    let mut b = with_source("/src");
    let hint = line_text(&actions_lines(&b).lines[4]);
    assert_eq!(hint, "Backup now  (encrypted backup of the source → ~/bukagu-backups)");
    b.open_backup();
    assert_eq!(b.outcome, Some(Outcome::OpenBackup));
    assert!(!b.status_is_error);

    let mut b = new();
    assert_eq!(line_text(&actions_lines(&b).lines[4]), "Backup now  (choose a source first)");
    b.open_backup();
    assert_eq!(b.outcome, None);
    assert_eq!(b.status, "Choose a source first ([s]) before backing up.");
    let sync = line_text(&actions_lines(&with_source("/src")).lines[2]);
    assert_eq!(sync, "Sync now  (choose a source + destination first)");
}
