use bukagu::engine::banner::{comment_style, with_banner, CommentStyle, BANNER_MARKER};
use bukagu::engine::mapping::{
    apply_target, bytes_to_write, guard_target, plan, render_target, validate, BannerMode, Issue,
    LoadedMapping, LoadedTarget, LocatedMapping, MappingPlan, TargetPlan, TargetState,
};
use bukagu::path::PathBuf;
use bukagu::resolve::{ancestors, resolved_abs, Place};

fn p(s: &str) -> PathBuf {
    PathBuf::of(s)
}

fn place(s: &str) -> Place {
    Place { path: p(s), resolved: p(s) }
}

fn located(source_rel: &str, exists: bool, targets: &[&str]) -> LocatedMapping {
    LocatedMapping {
        source_rel: p(source_rel),
        source_is_file: exists,
        targets: targets.iter().map(|t| place(t)).collect(),
    }
}

fn loaded(
    source_rel: &str,
    contents: Option<&str>,
    targets: &[(&str, Option<&[u8]>)],
) -> LoadedMapping {
    LoadedMapping {
        source_rel: p(source_rel),
        contents: contents.map(|c| c.as_bytes().to_vec()),
        targets: targets
            .iter()
            .map(|(t, e)| LoadedTarget { target: p(t), existing: e.map(|b| b.to_vec()) })
            .collect(),
    }
}

fn planned(source: &str, maps: &Vec<LoadedMapping>) -> MappingPlan {
    assert!(bytes_to_write(&p(source), maps).is_some());
    plan(&p(source), maps)
}

/// What writing a planned target leaves in it.
fn written(tp: &TargetPlan, contents: &str) -> Vec<u8> {
    render_target(&tp.source_abs, &tp.target, &contents.as_bytes().to_vec()).0
}

fn text(bytes: &[u8]) -> String {
    String::from_utf8(bytes.to_vec()).unwrap()
}

#[test]
fn create_then_uptodate_then_update() {
    let first = planned("/src", &vec![loaded("a.py", Some("print('hi')\n"), &[("/dst/a.py", None)])]);
    assert_eq!(first.stats.created, 1);
    assert_eq!(first.targets[0].state, TargetState::Create);

    let write = apply_target(
        &place("/src"),
        &vec![place("/dst")],
        &first.targets[0],
        &place("/dst/a.py"),
        false,
    )
    .unwrap()
    .expect("a target to write");
    assert_eq!(write.source_abs, p("/src/a.py"));
    assert_eq!(write.parent, Some(p("/dst")));
    assert_eq!(write.target, p("/dst/a.py"));
    let body = written(&first.targets[0], "print('hi')\n");
    assert!(text(&body).contains(BANNER_MARKER), "banner written");
    assert!(text(&body).contains("print('hi')"), "source body written");

    let second = planned(
        "/src",
        &vec![loaded("a.py", Some("print('hi')\n"), &[("/dst/a.py", Some(&body))])],
    );
    assert_eq!(second.stats.up_to_date, 1);
    assert!(second.is_noop());

    let third = planned(
        "/src",
        &vec![loaded("a.py", Some("print('changed')\n"), &[("/dst/a.py", Some(&body))])],
    );
    assert_eq!(third.stats.updated, 1);
    assert_eq!(third.targets[0].state, TargetState::Update);
}

#[test]
fn re_apply_does_not_stack_banner() {
    let source = p("/src/a.js");
    let target = p("/dst/a.js");
    let once = render_target(&source, &target, &b"const x = 1;\n".to_vec()).0;
    let twice = render_target(&source, &target, &once).0;
    assert_eq!(text(&twice).matches(BANNER_MARKER).count(), 1);
    assert_eq!(once, twice);
}

#[test]
fn unknown_extension_copies_without_banner() {
    let plan = planned(
        "/src",
        &vec![loaded("data.bin", Some("raw bytes\n"), &[("/dst/data.bin", None)])],
    );
    assert_eq!(plan.targets[0].banner, BannerMode::SkippedUnknownExt);
    assert_eq!(plan.stats.banner_skipped, 1);
    assert_eq!(text(&written(&plan.targets[0], "raw bytes\n")), "raw bytes\n", "verbatim");
}

#[test]
fn mapping_dry_run_writes_nothing() {
    let plan = planned("/src", &vec![loaded("a.py", Some("x = 1\n"), &[("/dst/a.py", None)])]);
    let write = apply_target(
        &place("/src"),
        &vec![place("/dst")],
        &plan.targets[0],
        &place("/dst/a.py"),
        true,
    )
    .unwrap();
    assert!(write.is_none(), "dry-run leaves the target unwritten");
}

#[test]
fn duplicate_target_is_flagged_and_blocks() {
    let maps = vec![
        located("a.py", true, &["/dst/shared.py"]),
        located("b.py", true, &["/dst/shared.py"]),
    ];
    let issues = validate(&place("/src"), &vec![place("/dst")], &maps);
    assert!(issues.iter().any(|i| matches!(i, Issue::DuplicateTarget(_))));
    assert!(issues.iter().any(Issue::is_blocking));
    assert_eq!(issues.len(), 1, "each duplicated target is reported once");
    assert_eq!(
        issues[0].message(),
        "/dst/shared.py is mapped from more than one source"
    );
}

#[test]
fn target_inside_source_is_refused() {
    let maps = vec![located("a.py", true, &["/src/leak.py"])];
    let issues = validate(&place("/src"), &vec![place("/dst")], &maps);
    assert!(issues.iter().any(|i| matches!(i, Issue::TargetInSource(_))));
    assert_eq!(
        issues[0].message(),
        "/src/leak.py is inside the source (bukagu never writes there)"
    );

    let plan = planned("/src", &vec![loaded("a.py", Some("1\n"), &[("/src/leak.py", None)])]);
    let err = apply_target(
        &place("/src"),
        &vec![place("/dst")],
        &plan.targets[0],
        &place("/src/leak.py"),
        false,
    )
    .unwrap_err();
    assert!(err.message().contains("refusing to write into the source"));
    assert_eq!(
        err.message(),
        "refusing to write into the source: /src/leak.py is inside /src"
    );
}

#[test]
fn target_behind_a_link_into_the_source_is_refused() {
    let target = Place { path: p("/dst/link/x.py"), resolved: p("/src/x.py") };
    assert!(guard_target(&place("/src"), &vec![place("/dst")], &target).is_err());
}

#[test]
fn target_outside_every_destination_is_refused() {
    let maps = vec![located("a.py", true, &["/elsewhere/a.py"])];
    let issues = validate(&place("/src"), &vec![place("/dst")], &maps);
    assert_eq!(issues, vec![Issue::TargetOutsideDestinations(p("/elsewhere/a.py"))]);
    assert_eq!(
        issues[0].message(),
        "/elsewhere/a.py is outside every destination folder"
    );
    let err =
        guard_target(&place("/src"), &vec![place("/dst")], &place("/elsewhere/a.py")).unwrap_err();
    assert_eq!(
        err.message(),
        "refusing to write /elsewhere/a.py: it is outside every destination folder"
    );
}

#[test]
fn every_issue_is_reported_once() {
    let (source, roots) = (place("/src"), vec![place("/dst")]);
    let maps = vec![
        located("a.py", false, &["/dst/a.py", "/src/x.py", "/etc/y.py"]),
        located("b.py", false, &["/dst/a.py", "/dst/a.py"]),
        located("c.py", true, &["/src"]),
    ];
    assert_eq!(
        validate(&source, &roots, &maps),
        vec![
            Issue::DuplicateTarget(p("/dst/a.py")),
            Issue::SourceMissing(p("a.py")),
            Issue::TargetInSource(p("/src/x.py")),
            Issue::TargetOutsideDestinations(p("/etc/y.py")),
            Issue::SourceMissing(p("b.py")),
            Issue::TargetInSource(p("/src")),
        ]
    );
    let fine = vec![located("a.py", true, &["/dst/a.py"]), located("b.py", true, &["/dst/b"])];
    assert_eq!(validate(&source, &roots, &fine), vec![]);
}

#[test]
fn dots_do_not_fool_the_guard() {
    let path = p("/w/dst/new/../../src/leak.py");
    let canonical: Vec<Option<PathBuf>> = ancestors(&path)
        .iter()
        .map(|a| if a.same(&p("/w/dst")) { Some(p("/w/dst")) } else { None })
        .collect();
    let target = Place { resolved: resolved_abs(&path, &canonical, &p("/")), path };
    let err = guard_target(&place("/w/src"), &vec![place("/w/dst")], &target).unwrap_err();
    assert!(err.message().contains("refusing to write into the source"));
}

#[test]
fn rows_that_are_not_written_have_no_bytes() {
    let target = p("/dst/a.py");
    let wanted = render_target(&p("/src/a.py"), &target, &b"x = 1\n".to_vec()).0;
    let mut maps = vec![loaded("a.py", Some("x = 1\n"), &[("/dst/a.py", Some(&wanted[..]))])];
    let plan = planned("/src", &maps);
    assert_eq!(plan.targets[0].state, TargetState::UpToDate);
    assert_eq!((plan.targets[0].bytes, plan.stats.bytes), (0, 0));
    assert_eq!(plan.stats.up_to_date, 1);
    assert!(plan.is_noop());

    maps[0].targets[0].existing = None;
    assert_eq!(planned("/src", &maps).targets[0].bytes, wanted.len() as u64);
}

#[test]
fn missing_source_is_non_blocking_and_skipped() {
    let issues = validate(
        &place("/src"),
        &vec![place("/dst")],
        &vec![located("gone.py", false, &["/dst/gone.py"])],
    );
    assert!(issues.iter().any(|i| matches!(i, Issue::SourceMissing(_))));
    assert!(!issues.iter().any(Issue::is_blocking), "missing source doesn't block");
    assert_eq!(issues[0].message(), "source file gone.py is missing");

    let plan = planned("/src", &vec![loaded("gone.py", None, &[("/dst/gone.py", None)])]);
    assert_eq!(plan.stats.source_missing, 1);
    assert!(!plan.targets[0].will_write());
    assert_eq!(plan.targets[0].bytes, 0);
}

#[test]
fn one_source_fans_out_to_many_targets() {
    let (t1, t2) = ("/dst/one/a.py", "/dst/two/a.py");
    let issues = validate(
        &place("/src"),
        &vec![place("/dst")],
        &vec![located("a.py", true, &[t1, t2])],
    );
    assert!(issues.is_empty());
    let plan = planned(
        "/src",
        &vec![loaded("a.py", Some("x = 1\n"), &[(t1, None), (t2, None)])],
    );
    assert_eq!(plan.stats.created, 2);
    assert_eq!(plan.changes(), 2);
    for (tp, t) in plan.targets.iter().zip([t1, t2]) {
        let write =
            apply_target(&place("/src"), &vec![place("/dst")], tp, &place(t), false).unwrap();
        assert!(write.is_some(), "both targets written");
    }
}

#[test]
fn binary_sources_are_copied_verbatim() {
    let bytes = vec![0xff, 0xfe, 0x00];
    let (out, mode) = render_target(&p("/src/a.py"), &p("/dst/a.py"), &bytes);
    assert_eq!(out, bytes);
    assert_eq!(mode, BannerMode::SkippedBinary);
}

#[test]
fn notes_and_labels_are_stable() {
    assert_eq!(BannerMode::Applied.note(), None);
    assert_eq!(BannerMode::SkippedUnknownExt.note(), Some("no banner (unknown type)"));
    assert_eq!(BannerMode::SkippedBinary.note(), Some("no banner (binary)"));
    assert_eq!(TargetState::Create.label(), "create");
    assert_eq!(TargetState::Update.label(), "update");
    assert_eq!(TargetState::UpToDate.label(), "ok");
    assert_eq!(TargetState::SourceMissing.label(), "missing");
}

#[test]
fn comment_styles_follow_the_extension() {
    for ext in ["js", "ts", "rs", "JS"] {
        assert_eq!(comment_style(ext), Some(CommentStyle::Slashes));
    }
    for ext in ["py", "sh", "yaml"] {
        assert_eq!(comment_style(ext), Some(CommentStyle::Hash));
    }
    for ext in ["sql", "lua"] {
        assert_eq!(comment_style(ext), Some(CommentStyle::Dashes));
    }
    assert_eq!(comment_style("css"), Some(CommentStyle::Stars));
    assert_eq!(comment_style("html"), Some(CommentStyle::Markup));
    assert_eq!(comment_style("md"), Some(CommentStyle::Markup));
    assert_eq!(comment_style("bin"), None);
    assert_eq!(comment_style(""), None);
}

#[test]
fn banner_is_one_comment_line_and_an_empty_line() {
    assert_eq!(
        with_banner(CommentStyle::Hash, &p("/path/to/master/app.py"), "x = 1\n"),
        "# Managed by bukagu — do not edit this file; it is overwritten on every sync. \
         Edit the source instead: /path/to/master/app.py\n\nx = 1\n"
    );
    assert!(with_banner(CommentStyle::Stars, &p("/a.css"), "")
        .ends_with("Edit the source instead: /a.css */\n\n"));
    assert!(with_banner(CommentStyle::Markup, &p("/a.md"), "").starts_with("<!-- Managed by"));
}

#[test]
fn shebang_and_byte_order_mark_stay_on_top() {
    let out = with_banner(CommentStyle::Hash, &p("/s.sh"), "#!/bin/sh\necho hi\n");
    assert!(out.starts_with("#!/bin/sh\n# Managed by bukagu"));
    assert!(out.ends_with("\n\necho hi\n"));
    let again = with_banner(CommentStyle::Hash, &p("/s.sh"), &out);
    assert_eq!(again, out);

    let out = with_banner(CommentStyle::Slashes, &p("/a.js"), "\u{feff}let x;\n");
    assert!(out.starts_with("\u{feff}// Managed by bukagu"));

    let out = with_banner(CommentStyle::Hash, &p("/s.sh"), "#!/bin/sh");
    assert!(out.starts_with("#!/bin/sh\n# Managed by bukagu"));
}

#[test]
fn a_banner_for_another_source_is_replaced() {
    let old = with_banner(CommentStyle::Hash, &p("/old/a.py"), "x = 1\n");
    let new = with_banner(CommentStyle::Hash, &p("/new/a.py"), &old);
    assert_eq!(new, with_banner(CommentStyle::Hash, &p("/new/a.py"), "x = 1\n"));
}
