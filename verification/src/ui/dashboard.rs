//! The sync dashboard: what keys do, what the worker reports, and what it shows.

use vstd::prelude::*;
use vstd::string::*;

use crate::app::{
    action_total, all_empty, done_total, line_total, marks, scrolled, App, DestPlan, Phase,
};
use crate::engine::apply::{guard_destination, guarded, refusal_text};
use crate::engine::diff::{
    apply_ordered, diff, file_bytes, first_unhashed, planned, tallies, DiffError, DigestPair,
};
use crate::engine::{action_label, Act, Scan, Stats, SyncAction};
use crate::message::Message;
use crate::path::PathBuf;
use crate::resolve::Located;
use crate::text::{self, decimal, lossy_text, pad_left, pad_right};
use crate::theme;
use crate::ui::keys::Key;
use crate::ui::view::{
    self, blank_line, bold, colored, in_bold, in_color, line1, line2, line3, run, unstyled, Lines,
    Run,
};
use crate::ui::widgets::{action_color, bytes_text, color_of_action, human_bytes};

verus! {

/// How the dashboard ended.
#[derive(Debug, Clone, Copy, PartialEq, Eq, Structural)]
pub enum Outcome {
    /// A sync wrote to the destinations; carries the totals.
    Applied(Stats),
    /// A preview finished; nothing was written.
    Preview(Stats),
    /// Every destination already matched the source.
    UpToDate,
    /// The user left before anything was applied.
    Cancelled,
}

// --- Keys ------------------------------------------------------------------

/// What a key makes of the dashboard.
pub open spec fn keyed(before: App, key: Key, after: App) -> bool {
    let leaving = key == Key::Char('q') || key == Key::Esc;
    let left = App { should_quit: true, ..before };
    let lines = line_total(before.plans@);
    let row = before.review_scroll;
    match before.phase {
        Phase::Scanning => after == if leaving {
            left
        } else {
            before
        },
        Phase::Review => if key == Key::Up || key == Key::Char('k') {
            after == (App {
                review_scroll: (if row < 1 {
                    0
                } else {
                    row - 1
                }) as usize,
                ..before
            })
        } else if key == Key::Down || key == Key::Char('j') {
            after == (App { review_scroll: scrolled(row + 1, lines), ..before })
        } else if key == Key::PageUp {
            after == (App {
                review_scroll: (if row < 10 {
                    0
                } else {
                    row - 10
                }) as usize,
                ..before
            })
        } else if key == Key::PageDown {
            after == (App { review_scroll: scrolled(row + 10, lines), ..before })
        } else if key == Key::Enter || key == Key::Char('y') {
            &&& after == (App { phase: Phase::Applying, status: after.status, ..before })
            &&& after.status@ == if before.opts.dry_run {
                "Previewing…"@
            } else {
                "Applying…"@
            }
        } else if leaving {
            after == left
        } else {
            after == before
        },
        Phase::Applying => after == before,
        _ => after == if leaving || key == Key::Enter {
            left
        } else {
            before
        },
    }
}

/// Take in a key. While changes are applied no key does anything.
pub fn handle_key(app: &mut App, key: Key)
    requires
        old(app).fits(),
        old(app).review_scroll <= usize::MAX - 10,
    ensures
        keyed(*old(app), key, *final(app)),
        final(app).fits(),
{
    let leaving = key == Key::Char('q') || key == Key::Esc;
    match app.phase {
        Phase::Scanning => {
            if leaving {
                app.quit();
            }
        },
        Phase::Review => {
            if key == Key::Up || key == Key::Char('k') {
                app.scroll_up();
            } else if key == Key::Down || key == Key::Char('j') {
                app.scroll_down();
            } else if key == Key::PageUp {
                app.page_up();
            } else if key == Key::PageDown {
                app.page_down();
            } else if key == Key::Enter || key == Key::Char('y') {
                app.confirm();
            } else if leaving {
                app.quit();
            }
        },
        Phase::Applying => {},
        Phase::Done => {
            if leaving || key == Key::Enter {
                app.quit();
            }
        },
        Phase::Error => {
            if leaving || key == Key::Enter {
                app.quit();
            }
        },
    }
}

/// How a dashboard in this state ended.
pub open spec fn outcome(app: App) -> Outcome {
    match app.stats {
        None => Outcome::Cancelled,
        Some(stats) => if all_empty(app.plans@) {
            Outcome::UpToDate
        } else if app.opts.dry_run {
            Outcome::Preview(stats)
        } else {
            Outcome::Applied(stats)
        },
    }
}

/// How a dashboard in this state ended.
pub fn outcome_of(app: &App) -> (res: Outcome)
    ensures
        res == outcome(*app),
{
    match app.stats {
        None => Outcome::Cancelled,
        Some(stats) => {
            if app.nothing_to_do() {
                Outcome::UpToDate
            } else if app.opts.dry_run {
                Outcome::Preview(stats)
            } else {
                Outcome::Applied(stats)
            }
        },
    }
}

// --- Worker ----------------------------------------------------------------

/// The report that a folder has been scanned.
pub fn scanned_message(root: &PathBuf, scan: &Scan) -> (res: Message)
    ensures
        res matches Message::Scanned { root: r, count } && r@ == root@ && count == scan@.len(),
{
    Message::Scanned { root: root.clone(), count: scan.entries.len() }
}

/// Hold a destination against the source before it is even read.
pub fn check_destination(source: &Located, destination: &Located) -> (res: Result<(), String>)
    ensures
        ({
            let outcome = guarded(source.path@, source.at(), destination.path@, destination.at());
            match res {
                Ok(()) => outcome is Ok,
                Err(m) => outcome matches Err(r) && m@ == "checking destination "@ + lossy_text(
                    destination.path@,
                ) + ": "@ + refusal_text(r),
            }
        }),
{
    match guard_destination(source, destination) {
        Ok(_) => Ok(()),
        Err(e) => {
            let mut s = "checking destination ".to_owned();
            s.append(destination.path.display().as_str());
            s.append(": ");
            s.append(e.message().as_str());
            Err(s)
        },
    }
}

/// The report of a destination's plan.
pub fn planned_message(
    destination: &PathBuf,
    source: &Scan,
    scan: &Scan,
    digests: &Vec<DigestPair>,
    delete_extras: bool,
) -> (res: Result<Message, DiffError>)
    requires
        source.wf(),
        scan.wf(),
        file_bytes(source@) <= u64::MAX,
    ensures
        match res {
            Ok(m) => m matches Message::Planned { destination: d, plan } && {
                let wanted = planned(source@, scan@, digests@, delete_extras);
                &&& d@ == destination@
                &&& first_unhashed(source@, scan@, digests@) is None
                &&& plan.acts().len() == wanted.len()
                &&& apply_ordered(plan.acts())
                &&& forall|a: Act| #[trigger] plan.acts().contains(a) <==> wanted.contains(a)
                &&& tallies(plan.stats, wanted)
            },
            Err(DiffError::Unhashed(rel)) => first_unhashed(source@, scan@, digests@) == Some(rel@),
        },
{
    match diff(source, scan, digests, delete_extras) {
        Ok(plan) => Ok(Message::Planned { destination: destination.clone(), plan }),
        Err(e) => Err(e),
    }
}

/// The totals of two plans together, where they fit.
pub open spec fn summed(a: Stats, b: Stats, sum: Stats) -> bool {
    &&& sum.create_dirs == a.create_dirs + b.create_dirs
    &&& sum.copies == a.copies + b.copies
    &&& sum.overwrites == a.overwrites + b.overwrites
    &&& sum.deletes == a.deletes + b.deletes
    &&& sum.bytes == a.bytes + b.bytes
}

/// Add the totals of one plan to those of others.
pub fn accumulate(total: &mut Stats, s: &Stats)
    requires
        old(total).create_dirs + s.create_dirs <= usize::MAX,
        old(total).copies + s.copies <= usize::MAX,
        old(total).overwrites + s.overwrites <= usize::MAX,
        old(total).deletes + s.deletes <= usize::MAX,
        old(total).bytes + s.bytes <= u64::MAX,
    ensures
        summed(*old(total), *s, *final(total)),
{
    total.create_dirs += s.create_dirs;
    total.copies += s.copies;
    total.overwrites += s.overwrites;
    total.deletes += s.deletes;
    total.bytes += s.bytes;
}

/// One figure of the plans, added up.
pub open spec fn sum_of(plans: Seq<DestPlan>, f: spec_fn(Stats) -> nat) -> nat
    decreases plans.len(),
{
    if plans.len() == 0 {
        0
    } else {
        sum_of(plans.drop_last(), f) + f(plans.last().plan.stats)
    }
}

/// Whether `total` adds up the figures of the plans.
pub open spec fn totals(plans: Seq<DestPlan>, total: Stats) -> bool {
    &&& total.create_dirs == sum_of(plans, |s: Stats| s.create_dirs as nat)
    &&& total.copies == sum_of(plans, |s: Stats| s.copies as nat)
    &&& total.overwrites == sum_of(plans, |s: Stats| s.overwrites as nat)
    &&& total.deletes == sum_of(plans, |s: Stats| s.deletes as nat)
    &&& total.bytes == sum_of(plans, |s: Stats| s.bytes as nat)
}

/// Whether the figures of the plans can be added up.
pub open spec fn totals_fit(plans: Seq<DestPlan>) -> bool {
    &&& sum_of(plans, |s: Stats| s.create_dirs as nat) <= usize::MAX
    &&& sum_of(plans, |s: Stats| s.copies as nat) <= usize::MAX
    &&& sum_of(plans, |s: Stats| s.overwrites as nat) <= usize::MAX
    &&& sum_of(plans, |s: Stats| s.deletes as nat) <= usize::MAX
    &&& sum_of(plans, |s: Stats| s.bytes as nat) <= u64::MAX
}

proof fn lemma_sum_take(plans: Seq<DestPlan>, f: spec_fn(Stats) -> nat, i: int)
    requires
        0 <= i <= plans.len(),
    ensures
        sum_of(plans.take(i), f) <= sum_of(plans, f),
    decreases plans.len(),
{
    if i == plans.len() {
        assert(plans.take(i) =~= plans);
    } else {
        lemma_sum_take(plans.drop_last(), f, i);
        assert(plans.drop_last().take(i) =~= plans.take(i));
    }
}

/// The report that every plan has been applied, with the totals.
pub fn done_message(plans: &Vec<DestPlan>) -> (res: Message)
    requires
        totals_fit(plans@),
    ensures
        res matches Message::Done { stats } && totals(plans@, stats),
{
    let mut total = Stats::default();
    for i in 0..plans.len()
        invariant
            totals(plans@.take(i as int), total),
            totals_fit(plans@),
    {
        proof {
            lemma_sum_take(plans@, |s: Stats| s.create_dirs as nat, i + 1);
            lemma_sum_take(plans@, |s: Stats| s.copies as nat, i + 1);
            lemma_sum_take(plans@, |s: Stats| s.overwrites as nat, i + 1);
            lemma_sum_take(plans@, |s: Stats| s.deletes as nat, i + 1);
            lemma_sum_take(plans@, |s: Stats| s.bytes as nat, i + 1);
            assert(plans@.take(i + 1).drop_last() =~= plans@.take(i as int));
            assert(plans@.take(i + 1).last() == plans@[i as int]);
        }
        accumulate(&mut total, &plans[i].plan.stats);
    }
    assert(plans@.take(plans@.len() as int) =~= plans@);
    Message::Done { stats: total }
}

// --- View ------------------------------------------------------------------

/// What the header says of a phase.
pub open spec fn phase_text(p: Phase) -> Seq<char> {
    match p {
        Phase::Scanning => "Scanning source and destinations…"@,
        Phase::Review => "Review the planned changes"@,
        Phase::Applying => "Applying changes…"@,
        Phase::Done => "Done"@,
        Phase::Error => "Error"@,
    }
}

/// What the header says of a phase.
pub fn phase_label(p: Phase) -> (res: &'static str)
    ensures
        res@ == phase_text(p),
{
    match p {
        Phase::Scanning => "Scanning source and destinations…",
        Phase::Review => "Review the planned changes",
        Phase::Applying => "Applying changes…",
        Phase::Done => "Done",
        Phase::Error => "Error",
    }
}

/// The pieces of the header's last line.
pub open spec fn flags_view(app: App) -> Seq<Run> {
    let a = seq![
        run("Destinations: "@, in_color(theme::TEXT_DIM)),
        run(decimal(app.config.destinations@.len()), in_color(theme::TEXT)),
    ];
    let b = if app.opts.dry_run {
        a.push(run("   [dry-run]"@, in_color(theme::GOLD)))
    } else {
        a
    };
    let c = if app.opts.delete {
        b.push(run("   [delete-extras]"@, in_color(theme::DELETE)))
    } else {
        b
    };
    if app.opts.yes {
        c.push(run("   [auto-yes]"@, in_color(theme::TEXT_DIM)))
    } else {
        c
    }
}

/// The lines of the header.
pub open spec fn header_view(app: App) -> Seq<Seq<Run>> {
    seq![
        seq![
            run("bukagu"@, in_bold(theme::GOLD)),
            run("  ·  sync dashboard"@, in_color(theme::TEXT_DIM)),
        ],
        seq![run(phase_text(app.phase), in_bold(theme::HEADER))],
        seq![
            run("Source:  "@, in_color(theme::TEXT_DIM)),
            run(lossy_text(app.config.source@), in_color(theme::AMBER)),
        ],
        flags_view(app),
    ]
}

/// The lines of the header.
pub fn header_lines(app: &App) -> (res: Lines)
    ensures
        res@ == header_view(*app),
{
    let mut lines = Lines::new();
    lines.push(
        line2(bold("bukagu", theme::GOLD), colored("  ·  sync dashboard", theme::TEXT_DIM)),
    );
    lines.push(line1(bold(phase_label(app.phase), theme::HEADER)));
    lines.push(
        line2(
            colored("Source:  ", theme::TEXT_DIM),
            colored(app.config.source.display().as_str(), theme::AMBER),
        ),
    );
    let mut flags = line2(
        colored("Destinations: ", theme::TEXT_DIM),
        colored(text::decimal_usize(app.expected_plans()).as_str(), theme::TEXT),
    );
    if app.opts.dry_run {
        flags.push(colored("   [dry-run]", theme::GOLD));
    }
    if app.opts.delete {
        flags.push(colored("   [delete-extras]", theme::DELETE));
    }
    if app.opts.yes {
        flags.push(colored("   [auto-yes]", theme::TEXT_DIM));
    }
    lines.push(flags);
    assert(lines@ =~= header_view(*app));
    lines
}

/// A progress bar: `done` of `total`, and its label.
#[derive(Debug)]
pub struct Meter {
    pub done: usize,
    pub total: usize,
    pub label: String,
}

/// How many destinations are planned. The bar is never out of zero.
pub fn scanning_meter(app: &App) -> (res: Meter)
    ensures
        res.done == app.plans@.len(),
        res.total == if app.config.destinations@.len() == 0 {
            1
        } else {
            app.config.destinations@.len()
        },
        res.label@ == decimal(res.done as nat) + "/"@ + decimal(res.total as nat)
            + " destinations planned"@,
{
    let done: usize = app.plans.len();
    let expected = app.expected_plans();
    let total: usize = if expected == 0 {
        1
    } else {
        expected
    };
    let mut label = text::decimal_usize(done);
    label.append("/");
    label.append(text::decimal_usize(total).as_str());
    label.append(" destinations planned");
    Meter { done, total, label }
}

/// How many actions are applied.
pub fn applying_meter(app: &App) -> (res: Meter)
    requires
        app.fits(),
        done_total(marks(app.apply_progress@)) <= usize::MAX,
    ensures
        res.done == done_total(marks(app.apply_progress@)),
        res.total == action_total(app.plans@),
        res.label@ == decimal(res.done as nat) + "/"@ + decimal(res.total as nat) + " actions"@,
{
    let done = app.applied_actions();
    let total = app.total_actions();
    let mut label = text::decimal_usize(done);
    label.append("/");
    label.append(text::decimal_usize(total).as_str());
    label.append(" actions");
    Meter { done, total, label }
}

/// The piece that says how much an action writes; empty where it writes nothing.
pub open spec fn size_view(a: Act) -> Run {
    match a {
        Act::Copy(_, size) => run("   "@ + bytes_text(size as nat), in_color(theme::TEXT_DIM)),
        Act::Overwrite(_, size) => run("   "@ + bytes_text(size as nat), in_color(theme::TEXT_DIM)),
        _ => run(""@, unstyled()),
    }
}

/// The line for an action in the review list.
pub open spec fn action_view(a: Act) -> Seq<Run> {
    seq![
        run("    "@ + pad_right(action_label(a), 7), in_bold(color_of_action(a))),
        run(lossy_text(a.rel()), in_color(theme::TEXT)),
        size_view(a),
    ]
}

/// The line for a destination in the review list.
pub open spec fn plan_head_view(d: DestPlan) -> Seq<Run> {
    seq![
        run(
            lossy_text(d.destination@) + "  ("@ + decimal(d.plan.acts().len()) + " change(s))"@,
            in_bold(theme::GOLD),
        ),
    ]
}

/// The review list: each destination, followed by its actions.
pub open spec fn review_view(plans: Seq<DestPlan>) -> Seq<Seq<Run>>
    decreases plans.len(),
{
    if plans.len() == 0 {
        Seq::empty()
    } else {
        review_view(plans.drop_last()).push(plan_head_view(plans.last()))
            + plans.last().plan.acts().map_values(|a: Act| action_view(a))
    }
}

fn size_suffix(action: &SyncAction) -> (res: view::Span)
    ensures
        res@ == size_view(action@),
{
    match action {
        SyncAction::Copy { rel_path: _, size } => colored(
            text::concat("   ", human_bytes(*size).as_str()).as_str(),
            theme::TEXT_DIM,
        ),
        SyncAction::Overwrite { rel_path: _, size } => colored(
            text::concat("   ", human_bytes(*size).as_str()).as_str(),
            theme::TEXT_DIM,
        ),
        _ => view::raw(""),
    }
}

fn action_line(action: &SyncAction) -> (res: view::Line)
    ensures
        res@ == action_view(action@),
{
    let label = text::concat("    ", text::padded_right(action.label(), 7).as_str());
    line3(
        bold(label.as_str(), action_color(action)),
        colored(action.rel_path().display().as_str(), theme::TEXT),
        size_suffix(action),
    )
}

fn push_plan(lines: &mut Lines, d: &DestPlan)
    ensures
        final(lines)@ == old(lines)@.push(plan_head_view(*d)) + d.plan.acts().map_values(
            |a: Act| action_view(a),
        ),
{
    let mut head = d.destination.display();
    head.append("  (");
    head.append(text::decimal_usize(d.plan.actions.len()).as_str());
    head.append(" change(s))");
    lines.push(line1(bold(head.as_str(), theme::GOLD)));
    let ghost before = lines@;
    let ghost all = d.plan.acts().map_values(|a: Act| action_view(a));
    assert(before + all.take(0) =~= before);
    for j in 0..d.plan.actions.len()
        invariant
            all == d.plan.acts().map_values(|a: Act| action_view(a)),
            lines@ == before + all.take(j as int),
    {
        lines.push(action_line(&d.plan.actions[j]));
        assert(all[j as int] == action_view(d.plan.actions@[j as int]@));
        assert(before + all.take(j + 1) =~= (before + all.take(j as int)).push(all[j as int]));
    }
    assert(all.take(d.plan.actions@.len() as int) =~= all);
}

/// The review list: each destination, followed by its actions.
pub fn review_lines(app: &App) -> (res: Lines)
    ensures
        res@ == review_view(app.plans@),
{
    let mut lines = Lines::new();
    for i in 0..app.plans.len()
        invariant
            lines@ == review_view(app.plans@.take(i as int)),
    {
        assert(app.plans@.take(i + 1).drop_last() =~= app.plans@.take(i as int));
        push_plan(&mut lines, &app.plans[i]);
    }
    assert(app.plans@.take(app.plans@.len() as int) =~= app.plans@);
    lines
}

/// The first row that a panel of `height` rows, borders included, shows of `lines`
/// lines: the chosen one, but never so far down that rows at the end stay empty.
pub fn review_offset(lines: usize, height: u16, scroll: usize) -> (res: usize)
    ensures
        ({
            let inner = if height > 2 {
                height - 2
            } else {
                1
            };
            let max = if lines > inner {
                lines - inner
            } else {
                0
            };
            res == if scroll < max {
                scroll as int
            } else {
                max
            }
        }),
{
    let inner: usize = if height > 2 {
        (height - 2) as usize
    } else {
        1
    };
    let max: usize = if lines > inner {
        lines - inner
    } else {
        0
    };
    if scroll < max {
        scroll
    } else {
        max
    }
}

/// The title of the review list.
pub fn review_title(app: &App) -> (res: &'static str)
    ensures
        res@ == if app.opts.dry_run {
            "planned changes (preview)"@
        } else {
            "planned changes"@
        },
{
    if app.opts.dry_run {
        "planned changes (preview)"
    } else {
        "planned changes"
    }
}

/// The title of the summary.
pub fn done_title(app: &App) -> (res: &'static str)
    ensures
        res@ == if app.opts.dry_run {
            "preview"@
        } else {
            "summary"@
        },
{
    if app.opts.dry_run {
        "preview"
    } else {
        "summary"
    }
}

/// A line with a figure and what it counts.
pub open spec fn stat_view(label: Seq<char>, n: nat, color: u32) -> Seq<Run> {
    seq![
        run("  "@ + pad_left(decimal(n), 5) + "  "@, in_bold(color)),
        run(label, in_color(theme::TEXT)),
    ]
}

fn stat_line(label: &str, n: usize, color: u32) -> (res: view::Line)
    ensures
        res@ == stat_view(label@, n as nat, color),
{
    let figure = text::concat3(
        "  ",
        text::padded_left(text::decimal_usize(n).as_str(), 5).as_str(),
        "  ",
    );
    line2(bold(figure.as_str(), color), colored(label, theme::TEXT))
}

/// The lines of the summary.
pub open spec fn done_view(app: App) -> Seq<Seq<Run>> {
    let s = match app.stats {
        Some(s) => s,
        None => Stats { create_dirs: 0, copies: 0, overwrites: 0, deletes: 0, bytes: 0 },
    };
    if all_empty(app.plans@) {
        seq![
            seq![
                run("Everything is already in sync — nothing to do."@, in_bold(theme::SUCCESS)),
            ],
        ]
    } else {
        seq![
            seq![
                run(
                    if app.opts.dry_run {
                        "Dry run — these changes would be made (nothing was written):"@
                    } else {
                        "Sync complete. Applied:"@
                    },
                    in_bold(theme::SUCCESS),
                ),
            ],
            blank_line(),
            stat_view("directories created"@, s.create_dirs as nat, theme::CREATE_DIR),
            stat_view("files copied"@, s.copies as nat, theme::COPY),
            stat_view("files updated"@, s.overwrites as nat, theme::OVERWRITE),
            stat_view("files deleted"@, s.deletes as nat, theme::DELETE),
            blank_line(),
            seq![
                run("    data:  "@, in_color(theme::TEXT_DIM)),
                run(bytes_text(s.bytes as nat), in_color(theme::AMBER)),
            ],
        ]
    }
}

/// The lines of the summary.
pub fn done_lines(app: &App) -> (res: Lines)
    ensures
        res@ == done_view(*app),
{
    let stats = match app.stats {
        Some(s) => s,
        None => Stats::default(),
    };
    let mut lines = Lines::new();
    if app.nothing_to_do() {
        lines.push(
            line1(bold("Everything is already in sync — nothing to do.", theme::SUCCESS)),
        );
    } else {
        let head = if app.opts.dry_run {
            "Dry run — these changes would be made (nothing was written):"
        } else {
            "Sync complete. Applied:"
        };
        lines.push(line1(bold(head, theme::SUCCESS)));
        lines.push(view::blank());
        lines.push(stat_line("directories created", stats.create_dirs, theme::CREATE_DIR));
        lines.push(stat_line("files copied", stats.copies, theme::COPY));
        lines.push(stat_line("files updated", stats.overwrites, theme::OVERWRITE));
        lines.push(stat_line("files deleted", stats.deletes, theme::DELETE));
        lines.push(view::blank());
        lines.push(
            line2(
                colored("    data:  ", theme::TEXT_DIM),
                colored(human_bytes(stats.bytes).as_str(), theme::AMBER),
            ),
        );
    }
    assert(lines@ =~= done_view(*app));
    lines
}

/// The lines of the error screen.
pub open spec fn error_view(app: App) -> Seq<Seq<Run>> {
    seq![
        seq![run("The sync could not complete:"@, in_bold(theme::ERROR))],
        blank_line(),
        seq![
            run(
                match app.error {
                    Some(m) => m@,
                    None => "Unknown error."@,
                },
                in_color(theme::TEXT),
            ),
        ],
    ]
}

/// The lines of the error screen.
pub fn error_lines(app: &App) -> (res: Lines)
    ensures
        res@ == error_view(*app),
{
    let mut lines = Lines::new();
    lines.push(line1(bold("The sync could not complete:", theme::ERROR)));
    lines.push(view::blank());
    let text = match &app.error {
        Some(m) => m.as_str(),
        None => "Unknown error.",
    };
    lines.push(line1(colored(text, theme::TEXT)));
    assert(lines@ =~= error_view(*app));
    lines
}

/// The keys that the footer names.
pub open spec fn footer_keys(p: Phase) -> Seq<char> {
    match p {
        Phase::Scanning => "[q] cancel"@,
        Phase::Review => "↑/↓ scroll   PgUp/PgDn page   [Enter/y] apply   [q] cancel"@,
        Phase::Applying => "applying… please wait"@,
        Phase::Done => "[Enter]/[q] quit"@,
        Phase::Error => "[q] quit"@,
    }
}

/// The lines of the footer.
pub fn footer_lines(app: &App) -> (res: Lines)
    ensures
        res@ == seq![
            seq![run(footer_keys(app.phase), in_color(theme::TEXT_DIM))],
            seq![
                run(
                    app.status@,
                    in_color(
                        if app.phase == Phase::Error {
                            theme::ERROR
                        } else {
                            theme::ACCENT
                        },
                    ),
                ),
            ],
        ],
{
    let keys = match app.phase {
        Phase::Scanning => "[q] cancel",
        Phase::Review => "↑/↓ scroll   PgUp/PgDn page   [Enter/y] apply   [q] cancel",
        Phase::Applying => "applying… please wait",
        Phase::Done => "[Enter]/[q] quit",
        Phase::Error => "[q] quit",
    };
    let color = if app.phase == Phase::Error {
        theme::ERROR
    } else {
        theme::ACCENT
    };
    let mut lines = Lines::new();
    lines.push(line1(colored(keys, theme::TEXT_DIM)));
    lines.push(line1(colored(app.status.as_str(), color)));
    assert(lines@ =~= seq![
        seq![run(footer_keys(app.phase), in_color(theme::TEXT_DIM))],
        seq![run(app.status@, in_color(color))],
    ]);
    lines
}

// --- Laws ------------------------------------------------------------------

/// Nothing that the user does while changes are applied has any effect: a copy is never
/// left half done.
pub proof fn law_applying_cannot_be_interrupted(before: App, key: Key, after: App)
    requires
        keyed(before, key, after),
        before.phase == Phase::Applying,
    ensures
        after == before,
{
}

/// The review list has as many lines as the scrolling counts.
pub proof fn law_review_lines_are_counted(plans: Seq<DestPlan>)
    ensures
        review_view(plans).len() == line_total(plans),
    decreases plans.len(),
{
    if plans.len() > 0 {
        law_review_lines_are_counted(plans.drop_last());
    }
}

/// What keys decide. In the review, Enter and y, and they alone, start the applying; q and
/// Esc leave. Before, q and Esc leave; afterwards Enter does too. No other key changes
/// more than what is in view.
pub proof fn law_keys_decide(before: App, key: Key, after: App)
    requires
        keyed(before, key, after),
        !before.should_quit,
    ensures
        before.phase == Phase::Review ==> (after.phase == Phase::Applying <==> key == Key::Enter
            || key == Key::Char('y')),
        before.phase != Phase::Review ==> after.phase == before.phase,
        after.phase != Phase::Applying ==> after.phase == before.phase,
        after.should_quit <==> match before.phase {
            Phase::Scanning => key == Key::Char('q') || key == Key::Esc,
            Phase::Review => key == Key::Char('q') || key == Key::Esc,
            Phase::Applying => false,
            _ => key == Key::Char('q') || key == Key::Esc || key == Key::Enter,
        },
        after.plans == before.plans && after.stats == before.stats && after.error == before.error
            && after.config == before.config && after.opts == before.opts,
{
}

/// How a sync ended: cancelled without totals; else up to date where no plan had an
/// action, a preview on a dry run, and applied otherwise, with its totals.
pub proof fn law_outcomes_are_told_apart(app: App)
    ensures
        outcome(app) is Cancelled <==> app.stats is None,
        app.stats matches Some(stats) ==> {
            let idle = forall|i: int|
                0 <= i < app.plans@.len() ==> (#[trigger] app.plans@[i]).plan.actions@.len() == 0;
            &&& outcome(app) is UpToDate <==> idle
            &&& outcome(app) == Outcome::Preview(stats) <==> !idle && app.opts.dry_run
            &&& outcome(app) == Outcome::Applied(stats) <==> !idle && !app.opts.dry_run
        },
{
    assert forall|i: int| 0 <= i < app.plans@.len() implies (
    #[trigger] app.plans@[i]).plan.actions@.len() == app.plans@[i].plan.acts().len() by {}
    if forall|i: int|
        0 <= i < app.plans@.len() ==> (#[trigger] app.plans@[i]).plan.actions@.len() == 0 {
        assert(all_empty(app.plans@));
    }
}

/// The totals of a sync add up those of its destinations, figure by figure.
pub proof fn law_totals_add_up(plans: Seq<DestPlan>, total: Stats)
    requires
        totals(plans, total),
    ensures
        total.create_dirs == plans.fold_left(
            0,
            |n: int, d: DestPlan| n + d.plan.stats.create_dirs,
        ),
        total.copies == plans.fold_left(0, |n: int, d: DestPlan| n + d.plan.stats.copies),
        total.overwrites == plans.fold_left(0, |n: int, d: DestPlan| n + d.plan.stats.overwrites),
        total.deletes == plans.fold_left(0, |n: int, d: DestPlan| n + d.plan.stats.deletes),
        total.bytes == plans.fold_left(0, |n: int, d: DestPlan| n + d.plan.stats.bytes),
{
    lemma_sum_folds(plans);
}

proof fn lemma_sum_folds(plans: Seq<DestPlan>)
    ensures
        sum_of(plans, |s: Stats| s.create_dirs as nat) == plans.fold_left(
            0,
            |n: int, d: DestPlan| n + d.plan.stats.create_dirs,
        ),
        sum_of(plans, |s: Stats| s.copies as nat) == plans.fold_left(
            0,
            |n: int, d: DestPlan| n + d.plan.stats.copies,
        ),
        sum_of(plans, |s: Stats| s.overwrites as nat) == plans.fold_left(
            0,
            |n: int, d: DestPlan| n + d.plan.stats.overwrites,
        ),
        sum_of(plans, |s: Stats| s.deletes as nat) == plans.fold_left(
            0,
            |n: int, d: DestPlan| n + d.plan.stats.deletes,
        ),
        sum_of(plans, |s: Stats| s.bytes as nat) == plans.fold_left(
            0,
            |n: int, d: DestPlan| n + d.plan.stats.bytes,
        ),
    decreases plans.len(),
{
    if plans.len() > 0 {
        lemma_sum_folds(plans.drop_last());
    }
}

/// The review shows every action of every plan: behind the lines of the plans before it
/// and the head of its own, at its place in the plan, with its label and its path.
pub proof fn law_reviews_show_every_action(plans: Seq<DestPlan>, i: int, j: int)
    requires
        0 <= i < plans.len(),
        0 <= j < plans[i].plan.acts().len(),
    ensures
        ({
            let at = review_view(plans.take(i)).len();
            let all = review_view(plans);
            let a = plans[i].plan.acts()[j];
            &&& at + 1 + j < all.len()
            &&& all[at as int] == plan_head_view(plans[i])
            &&& all[at + 1 + j] == action_view(a)
            &&& action_view(a).len() == 3
            &&& action_view(a)[0].text == "    "@ + pad_right(
                match a {
                    Act::CreateDir(_) => "mkdir"@,
                    Act::Copy(_, _) => "copy"@,
                    Act::Overwrite(_, _) => "update"@,
                    Act::Delete(_, _) => "delete"@,
                },
                7,
            )
            &&& action_view(a)[1].text == lossy_text(a.rel())
        }),
    decreases plans.len(),
{
    let front = plans.drop_last();
    if i < front.len() {
        law_reviews_show_every_action(front, i, j);
        assert(front.take(i) =~= plans.take(i));
        assert(front[i] == plans[i]);
    } else {
        assert(plans.take(i) =~= front);
    }
}

/// The summary of a sync says that there was nothing to do exactly where no plan had an
/// action, and else how much of each kind was done.
pub proof fn law_summaries_tell_the_totals(app: App, stats: Stats)
    requires
        app.stats == Some(stats),
    ensures
        ({
            let idle = forall|i: int|
                0 <= i < app.plans@.len() ==> (#[trigger] app.plans@[i]).plan.actions@.len() == 0;
            let all = done_view(app);
            &&& idle <==> all.len() == 1
            &&& !idle ==> {
                &&& all[2] == stat_view("directories created"@, stats.create_dirs as nat, theme::CREATE_DIR)
                &&& all[3] == stat_view("files copied"@, stats.copies as nat, theme::COPY)
                &&& all[4] == stat_view("files updated"@, stats.overwrites as nat, theme::OVERWRITE)
                &&& all[5] == stat_view("files deleted"@, stats.deletes as nat, theme::DELETE)
                &&& all[7][1].text == bytes_text(stats.bytes as nat)
            }
        }),
{
    assert forall|i: int| 0 <= i < app.plans@.len() implies (
    #[trigger] app.plans@[i]).plan.actions@.len() == app.plans@[i].plan.acts().len() by {}
    if forall|i: int|
        0 <= i < app.plans@.len() ==> (#[trigger] app.plans@[i]).plan.actions@.len() == 0 {
        assert(all_empty(app.plans@));
    }
}

} // verus!
