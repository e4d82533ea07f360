//! What the mapping screen shows.

use vstd::prelude::*;
use vstd::string::*;

use crate::engine::mapping::{
    flaw_text, flaws, is_blocking_flaw, mode_note, state_label, targets_view, Flaw, Issue,
    MappingStats, Target, TargetPlan, TargetState,
};
use crate::path::{path_bytes, same_path, stripped, PathBuf};
use crate::store::{links, Link};
use crate::text::{self, decimal, lossy_text, pad_right};
use crate::theme;
use crate::ui::browser::{find_path, position_of, target_count};
use crate::ui::browser_view::{
    button_view, caret, caret_text, no_rows, quit_button, Rows, RowsModel,
};
use crate::ui::mappings::{
    assigned, avail_rows, available, available_count, find_source, held, is_mapped,
    lemma_find_source, lemma_source_is_absent, pairs, target_text, AvailRow, DestFile, DestView,
    ExitChoice, MapApp, PairModel, Pane, Screen,
};
use crate::ui::view::{
    self, blank_line, bold, bold_on, colored, in_bold, in_bold_on, in_color, in_italics, italic,
    line1, line2, line3, run, unstyled, Line, Lines, Run,
};
use crate::ui::widgets::{bytes_text, folder_label, folder_name, human_bytes};

verus! {

// --- Frame -----------------------------------------------------------------

/// The lines of the header.
pub open spec fn header_view(a: MapApp) -> Seq<Seq<Run>> {
    seq![
        seq![
            run("bukagu"@, in_bold(theme::GOLD)),
            run("  ·  file mappings"@, in_color(theme::TEXT_DIM)),
        ],
        seq![
            run("Source  "@, in_color(theme::TEXT_DIM)),
            run(lossy_text(a.source@), in_color(theme::AMBER)),
        ],
    ]
}

/// The lines of the header.
pub fn header_lines(a: &MapApp) -> (res: Lines)
    ensures
        res@ == header_view(*a),
{
    let mut lines = Lines::new();
    lines.push(
        line2(bold("bukagu", theme::GOLD), colored("  ·  file mappings", theme::TEXT_DIM)),
    );
    lines.push(
        line2(
            colored("Source  ", theme::TEXT_DIM),
            colored(a.source.display().as_str(), theme::AMBER),
        ),
    );
    assert(lines@ =~= header_view(*a));
    lines
}

/// The color of a pane's border, by whether it has focus.
pub fn pane_border(focused: bool) -> (res: u32)
    ensures
        res == if focused {
            theme::GOLD
        } else {
            theme::PANEL_BORDER
        },
{
    if focused {
        theme::GOLD
    } else {
        theme::PANEL_BORDER
    }
}

/// The keys that the footer names.
pub open spec fn footer_keys(a: MapApp) -> Seq<char> {
    match a.screen {
        Screen::Page => match a.focus {
            Pane::Destinations => match a.dest_view {
                DestView::Assigned =>
                    "Tab focus  ↑/↓ move  Space/d unmap  [a] available  [r] reload  [s] sync  [q] back"@,
                DestView::Available =>
                    "Tab focus  ↑/↓ move  Space open folder / select file  Enter save  [a] assigned  [r] reload  [s] sync  [q] back"@,
            },
            Pane::Info =>
                "Tab focus  ↑/↓ move  Enter expand  [a] dest view  [r] reload  [s] sync  [q] back"@,
            Pane::Sources =>
                "Tab focus  ↑/↓ move  Space pick source  Enter save  [a] dest view  [r] reload  [s] sync  [q] back"@,
        },
        Screen::Summary => "↑/↓ scroll  [Enter/y] sync  [q] back"@,
        Screen::Done => "[Enter/q] back to the map page"@,
        Screen::Error => "[Enter/q] back to the map page"@,
    }
}

/// The lines of the footer: the status and the keys.
pub fn footer_lines(a: &MapApp) -> (res: Lines)
    ensures
        res@ == seq![
            seq![
                run(
                    a.status@,
                    in_color(
                        if a.status_is_error {
                            theme::ERROR
                        } else {
                            theme::ACCENT
                        },
                    ),
                ),
            ],
            seq![run(footer_keys(*a), in_color(theme::TEXT_DIM))],
        ],
{
    let keys = match a.screen {
        Screen::Page => match a.focus {
            Pane::Destinations => match a.dest_view {
                DestView::Assigned =>
                    "Tab focus  ↑/↓ move  Space/d unmap  [a] available  [r] reload  [s] sync  [q] back",
                DestView::Available =>
                    "Tab focus  ↑/↓ move  Space open folder / select file  Enter save  [a] assigned  [r] reload  [s] sync  [q] back",
            },
            Pane::Info =>
                "Tab focus  ↑/↓ move  Enter expand  [a] dest view  [r] reload  [s] sync  [q] back",
            Pane::Sources =>
                "Tab focus  ↑/↓ move  Space pick source  Enter save  [a] dest view  [r] reload  [s] sync  [q] back",
        },
        Screen::Summary => "↑/↓ scroll  [Enter/y] sync  [q] back",
        Screen::Done => "[Enter/q] back to the map page",
        Screen::Error => "[Enter/q] back to the map page",
    };
    let color = if a.status_is_error {
        theme::ERROR
    } else {
        theme::ACCENT
    };
    let mut lines = Lines::new();
    lines.push(line1(colored(a.status.as_str(), color)));
    lines.push(line1(colored(keys, theme::TEXT_DIM)));
    assert(lines@ =~= seq![
        seq![run(a.status@, in_color(color))],
        seq![run(footer_keys(*a), in_color(theme::TEXT_DIM))],
    ]);
    lines
}

/// A pane with a list.
#[derive(Debug)]
pub struct ListPane {
    pub title: String,
    /// What stands in place of an empty list.
    pub note: Option<&'static str>,
    pub lines: Lines,
    /// The highlighted line, while the pane has focus.
    pub selected: Option<usize>,
}

/// The highlighted line of a list of `n` lines, while its pane has focus.
pub open spec fn highlighted(focused: bool, cursor: usize, n: nat) -> Option<usize> {
    if focused && n > 0 {
        Some(held(cursor as int, n))
    } else {
        None
    }
}

fn highlight_row(focused: bool, cursor: usize, n: usize) -> (res: Option<usize>)
    ensures
        res == highlighted(focused, cursor, n as nat),
{
    if focused && n > 0 {
        Some(
            if cursor < n - 1 {
                cursor
            } else {
                n - 1
            },
        )
    } else {
        None
    }
}

// --- Sources ---------------------------------------------------------------

/// The line of a source file.
pub open spec fn source_row(a: MapApp, i: int) -> Seq<Run> {
    let rel = a.source_files@[i]@;
    let chosen = a.selected_source matches Some(s) && crate::path::same_path(s@, rel);
    let name = seq![
        run(
            lossy_text(rel),
            if chosen {
                in_bold_on(theme::TEXT, theme::ROSEWOOD)
            } else {
                in_color(theme::TEXT)
            },
        ),
    ];
    if find_source(links(a.mappings@), rel) is Some {
        name.push(run("  (mapped)"@, in_color(theme::TEXT_DIM)))
    } else {
        name
    }
}

fn source_line(a: &MapApp, i: usize) -> (res: Line)
    requires
        i < a.source_files@.len(),
    ensures
        res@ == source_row(*a, i as int),
{
    let rel = &a.source_files[i];
    let chosen = match &a.selected_source {
        Some(s) => s.same(rel),
        None => false,
    };
    let shown = rel.display();
    let mut line = line1(
        if chosen {
            bold_on(shown.as_str(), theme::TEXT, theme::ROSEWOOD)
        } else {
            colored(shown.as_str(), theme::TEXT)
        },
    );
    if crate::ui::mappings::source_position(&a.mappings, rel).is_some() {
        line.push(colored("  (mapped)", theme::TEXT_DIM));
    }
    line
}

/// The sources pane: every file below the source; the chosen one stands out, and those
/// that are mapped say so.
pub fn sources_pane(a: &MapApp) -> (res: ListPane)
    ensures
        res.title@ == "sources ("@ + decimal(a.source_files@.len()) + ")"@,
        res.note matches Some(t) ==> t@ == "(no files under the source folder)"@,
        res.note is Some == (a.source_files@.len() == 0),
        res.lines@ == Seq::new(a.source_files@.len(), |i: int| source_row(*a, i)),
        res.selected == highlighted(
            a.focus == Pane::Sources,
            a.src_cursor,
            a.source_files@.len(),
        ),
{
    let n: usize = a.source_files.len();
    let ghost all = Seq::new(a.source_files@.len(), |i: int| source_row(*a, i));
    let mut lines = Lines::new();
    for i in 0..n
        invariant
            n == a.source_files@.len(),
            all == Seq::new(a.source_files@.len(), |i: int| source_row(*a, i)),
            lines@ == all.take(i as int),
    {
        lines.push(source_line(a, i));
        assert(all.take(i + 1) =~= all.take(i as int).push(all[i as int]));
    }
    assert(all.take(n as int) =~= all);
    ListPane {
        title: text::concat3("sources (", text::decimal_usize(n).as_str(), ")"),
        note: if n == 0 {
            Some("(no files under the source folder)")
        } else {
            None
        },
        lines,
        selected: highlight_row(a.focus == Pane::Sources, a.src_cursor, n),
    }
}

// --- Destinations ----------------------------------------------------------

/// The line of an available file or of a folder.
pub open spec fn avail_row(a: MapApp, row: AvailRow) -> Seq<Run> {
    match row {
        AvailRow::Folder(r) => seq![
            run(
                caret_text(a.dest_open@.contains(r)) + " "@ + folder_label(
                    a.dest_roots@[r as int]@,
                ),
                in_bold(theme::GOLD),
            ),
            run(
                "   ("@ + decimal(available_count(a, r, a.dest_files@.len() as int))
                    + " available)"@,
                in_color(theme::TEXT_DIM),
            ),
        ],
        AvailRow::File(f) => {
            let file = a.dest_files@[f as int];
            if find_path(path_bytes(a.selected_targets@), file.abs@) is Some {
                seq![
                    run("    ✓ "@, in_bold(theme::GOLD)),
                    run(lossy_text(file.rel@), in_bold(theme::GOLD)),
                ]
            } else {
                seq![run("      "@ + lossy_text(file.rel@), in_color(theme::COPY))]
            }
        },
    }
}

fn avail_line(a: &MapApp, row: AvailRow) -> (res: Line)
    requires
        row matches AvailRow::Folder(r) ==> r < a.dest_roots@.len(),
        row matches AvailRow::File(f) ==> f < a.dest_files@.len(),
    ensures
        res@ == avail_row(*a, row),
{
    match row {
        AvailRow::Folder(r) => {
            let name = text::concat3(
                caret(a.is_open(r)),
                " ",
                folder_name(&a.dest_roots[r]).as_str(),
            );
            let count = text::concat3(
                "   (",
                text::decimal_usize(a.available_in_root(r)).as_str(),
                " available)",
            );
            line2(bold(name.as_str(), theme::GOLD), colored(count.as_str(), theme::TEXT_DIM))
        },
        AvailRow::File(f) => {
            let name = a.dest_files[f].rel.display();
            if position_of(&a.selected_targets, &a.dest_files[f].abs).is_some() {
                line2(bold("    ✓ ", theme::GOLD), bold(name.as_str(), theme::GOLD))
            } else {
                line1(colored(text::concat("      ", name.as_str()).as_str(), theme::COPY))
            }
        },
    }
}

/// The destinations pane with the files that are not mapped: each folder, followed,
/// where it is open, by its files; selected ones stand out.
pub fn available_pane(a: &MapApp) -> (res: ListPane)
    ensures
        ({
            let rows = avail_rows(*a, a.dest_roots@.len() as int);
            &&& res.title@ == "destinations · available ("@ + decimal(
                available(*a, a.dest_files@.len() as int).len(),
            ) + ")"@
            &&& res.note matches Some(t) ==> t@
                == "(no files in the destination folders — add some, then [r] reload)"@
            &&& res.note is Some == (a.dest_files@.len() == 0)
            &&& res.lines@ == rows.map_values(|r: AvailRow| avail_row(*a, r))
            &&& res.selected == highlighted(
                a.focus == Pane::Destinations,
                a.dest_cursor,
                rows.len(),
            )
        }),
{
    let rows = a.available_rows();
    let count = a.available_indices();
    let ghost all = rows@.map_values(|r: AvailRow| avail_row(*a, r));
    let mut lines = Lines::new();
    let _roots: usize = a.dest_roots.len();
    let _files: usize = a.dest_files.len();
    for i in 0..rows.len()
        invariant
            rows@ == avail_rows(*a, a.dest_roots@.len() as int),
            a.dest_files@.len() <= usize::MAX,
            a.dest_roots@.len() <= usize::MAX,
            all == rows@.map_values(|r: AvailRow| avail_row(*a, r)),
            lines@ == all.take(i as int),
    {
        proof {
            crate::ui::mappings::lemma_rows_in_range(*a, a.dest_roots@.len() as int, i as int);
        }
        lines.push(avail_line(a, rows[i]));
        assert(all.take(i + 1) =~= all.take(i as int).push(all[i as int]));
    }
    assert(all.take(rows@.len() as int) =~= all);
    ListPane {
        title: text::concat3(
            "destinations · available (",
            text::decimal_usize(count.len()).as_str(),
            ")",
        ),
        note: if a.dest_files.len() == 0 {
            Some("(no files in the destination folders — add some, then [r] reload)")
        } else {
            None
        },
        lines,
        selected: highlight_row(a.focus == Pane::Destinations, a.dest_cursor, rows.len()),
    }
}

/// The line of a mapped file.
pub open spec fn assigned_row(roots: Seq<PathBuf>, p: PairModel) -> Seq<Run> {
    seq![
        run(target_text(roots, p.target, 0), in_color(theme::COPY)),
        run("  ←  "@, in_color(theme::TEXT_DIM)),
        run(lossy_text(p.source_rel), in_color(theme::AMBER)),
    ]
}

/// The destinations pane with the mapped files, each with its source.
pub fn assigned_pane(a: &MapApp) -> (res: ListPane)
    ensures
        ({
            let rows = assigned(links(a.mappings@));
            &&& res.title@ == "destinations · assigned ("@ + decimal(rows.len()) + ")"@
            &&& res.note matches Some(t) ==> t@
                == "(nothing mapped yet — press [a] to pick target files)"@
            &&& res.note is Some == (rows.len() == 0)
            &&& res.lines@ == rows.map_values(|p: PairModel| assigned_row(a.dest_roots@, p))
            &&& res.selected == highlighted(
                a.focus == Pane::Destinations,
                a.dest_cursor,
                rows.len(),
            )
        }),
{
    let rows = a.assigned_rows();
    let ghost model = assigned(links(a.mappings@));
    let ghost all = model.map_values(|p: PairModel| assigned_row(a.dest_roots@, p));
    let mut lines = Lines::new();
    for i in 0..rows.len()
        invariant
            pairs(rows@) == model,
            all == model.map_values(|p: PairModel| assigned_row(a.dest_roots@, p)),
            lines@ == all.take(i as int),
    {
        let p = &rows[i];
        assert(model[i as int] == p@);
        lines.push(
            line3(
                colored(a.target_label(&p.target).as_str(), theme::COPY),
                colored("  ←  ", theme::TEXT_DIM),
                colored(p.source_rel.display().as_str(), theme::AMBER),
            ),
        );
        assert(all.take(i + 1) =~= all.take(i as int).push(all[i as int]));
    }
    assert(rows@.len() == model.len());
    assert(all.take(rows@.len() as int) =~= all);
    ListPane {
        title: text::concat3(
            "destinations · assigned (",
            text::decimal_usize(rows.len()).as_str(),
            ")",
        ),
        note: if rows.len() == 0 {
            Some("(nothing mapped yet — press [a] to pick target files)")
        } else {
            None
        },
        lines,
        selected: highlight_row(a.focus == Pane::Destinations, a.dest_cursor, rows.len()),
    }
}

// --- Info ------------------------------------------------------------------

/// How many of the first `n` destination files lie in a folder.
pub open spec fn files_in(a: MapApp, r: int, n: int) -> nat
    decreases n,
{
    if n <= 0 {
        0
    } else {
        files_in(a, r, n - 1) + (if a.dest_files@[n - 1].root_idx == r {
            1nat
        } else {
            0
        })
    }
}

/// The sizes of those of the first `n` destination files that lie in a folder.
pub open spec fn bytes_in_root(a: MapApp, r: int, n: int) -> nat
    decreases n,
{
    if n <= 0 {
        0
    } else {
        bytes_in_root(a, r, n - 1) + (if a.dest_files@[n - 1].root_idx == r {
            a.dest_files@[n - 1].size as nat
        } else {
            0
        })
    }
}

/// How many of the first `n` destination files lie in a folder and are mapped.
pub open spec fn mapped_in(a: MapApp, r: int, n: int) -> nat
    decreases n,
{
    if n <= 0 {
        0
    } else {
        mapped_in(a, r, n - 1) + (if a.dest_files@[n - 1].root_idx == r && is_mapped(
            links(a.mappings@),
            a.dest_files@[n - 1].abs@,
        ) {
            1nat
        } else {
            0
        })
    }
}

/// The sizes of the first `n` destination files.
pub open spec fn total_bytes(a: MapApp, n: int) -> nat
    decreases n,
{
    if n <= 0 {
        0
    } else {
        total_bytes(a, n - 1) + a.dest_files@[n - 1].size as nat
    }
}

proof fn lemma_bytes_bounded(a: MapApp, r: int, n: int, m: int)
    requires
        0 <= n <= m,
    ensures
        bytes_in_root(a, r, n) <= total_bytes(a, m),
    decreases m,
{
    if n < m {
        lemma_bytes_bounded(a, r, n, m - 1);
    } else if n > 0 {
        lemma_bytes_bounded(a, r, n - 1, m - 1);
    }
}

/// The line of a destination folder.
pub open spec fn root_row(a: MapApp, r: int) -> Seq<Run> {
    let n = a.dest_files@.len() as int;
    seq![
        run(
            caret_text(a.info_expanded == Some(r as usize)) + " "@ + lossy_text(a.dest_roots@[r]@),
            in_bold(theme::GOLD),
        ),
        run(
            "   "@ + bytes_text(bytes_in_root(a, r, n)) + "  ·  "@ + decimal(files_in(a, r, n))
                + " files  ·  "@ + decimal(mapped_in(a, r, n)) + " mapped"@,
            in_color(theme::TEXT_DIM),
        ),
    ]
}

/// The line of a mapping in the folder that it writes to.
pub open spec fn link_row(a: MapApp, source: Seq<u8>, target: Seq<u8>) -> Seq<Run> {
    seq![
        run("      "@, unstyled()),
        run(lossy_text(source), in_color(theme::AMBER)),
        run("  →  "@, in_color(theme::TEXT_DIM)),
        run(target_text(a.dest_roots@, target, 0), in_color(theme::COPY)),
    ]
}

/// The lines for those of the first `n` targets of a mapping that lie in a folder.
pub open spec fn target_rows(a: MapApp, root: Seq<u8>, m: Link, n: int) -> Seq<Seq<Run>>
    decreases n,
{
    if n <= 0 {
        Seq::empty()
    } else if stripped(m.targets[n - 1], root) is Some {
        target_rows(a, root, m, n - 1).push(link_row(a, m.source_rel, m.targets[n - 1]))
    } else {
        target_rows(a, root, m, n - 1)
    }
}

/// The lines for the targets of the first `n` mappings that lie in a folder.
pub open spec fn link_rows(a: MapApp, root: Seq<u8>, n: int) -> Seq<Seq<Run>>
    decreases n,
{
    if n <= 0 {
        Seq::empty()
    } else {
        let m = links(a.mappings@)[n - 1];
        link_rows(a, root, n - 1) + target_rows(a, root, m, m.targets.len() as int)
    }
}

/// The lines below an open folder.
pub open spec fn open_rows(a: MapApp, r: int) -> Seq<Seq<Run>> {
    let rows = link_rows(a, a.dest_roots@[r]@, a.mappings@.len() as int);
    if rows.len() == 0 {
        seq![
            seq![run("      (no mappings into this folder yet)"@, in_italics(theme::TEXT_DIM))],
        ]
    } else {
        rows
    }
}

/// Rows with lines below them.
pub open spec fn with_lines(rows: RowsModel, lines: Seq<Seq<Run>>) -> RowsModel {
    RowsModel { lines: rows.lines + lines, stops: rows.stops }
}

/// The rows for the first `n` destination folders.
pub open spec fn root_rows(a: MapApp, n: int) -> RowsModel
    decreases n,
{
    if n <= 0 {
        no_rows()
    } else {
        let head = root_rows(a, n - 1).plus_stop(root_row(a, n - 1));
        if a.info_expanded == Some((n - 1) as usize) {
            with_lines(head, open_rows(a, n - 1))
        } else {
            head
        }
    }
}

fn root_line(a: &MapApp, r: usize) -> (res: Line)
    requires
        r < a.dest_roots@.len(),
        total_bytes(*a, a.dest_files@.len() as int) <= u64::MAX,
    ensures
        res@ == root_row(*a, r as int),
{
    let mut files: usize = 0;
    let mut bytes: u64 = 0;
    let mut mapped: usize = 0;
    for i in 0..a.dest_files.len()
        invariant
            files == files_in(*a, r as int, i as int),
            bytes == bytes_in_root(*a, r as int, i as int),
            mapped == mapped_in(*a, r as int, i as int),
            files <= i,
            mapped <= i,
            total_bytes(*a, a.dest_files@.len() as int) <= u64::MAX,
    {
        proof {
            lemma_bytes_bounded(*a, r as int, i + 1, a.dest_files@.len() as int);
        }
        let f = &a.dest_files[i];
        if f.root_idx == r {
            files += 1;
            bytes += f.size;
            if crate::ui::mappings::mapped_anywhere(&a.mappings, &f.abs) {
                mapped += 1;
            }
        }
    }
    let name = text::concat3(
        caret(a.info_expanded == Some(r)),
        " ",
        a.dest_roots[r].display().as_str(),
    );
    let mut s = "   ".to_owned();
    s.append(human_bytes(bytes).as_str());
    s.append("  ·  ");
    s.append(text::decimal_usize(files).as_str());
    s.append(" files  ·  ");
    s.append(text::decimal_usize(mapped).as_str());
    s.append(" mapped");
    line2(bold(name.as_str(), theme::GOLD), colored(s.as_str(), theme::TEXT_DIM))
}

fn link_line(a: &MapApp, source: &PathBuf, target: &PathBuf) -> (res: Line)
    ensures
        res@ == link_row(*a, source@, target@),
{
    let mut line = line3(
        view::raw("      "),
        colored(source.display().as_str(), theme::AMBER),
        colored("  →  ", theme::TEXT_DIM),
    );
    line.push(colored(a.target_label(target).as_str(), theme::COPY));
    assert(line@ =~= link_row(*a, source@, target@));
    line
}

fn push_open(rows: &mut Rows, a: &MapApp, r: usize)
    requires
        r < a.dest_roots@.len(),
    ensures
        final(rows)@ == with_lines(old(rows)@, open_rows(*a, r as int)),
{
    let root = &a.dest_roots[r];
    let ghost before = rows@;
    let ghost maps = links(a.mappings@);
    let mut any = false;
    assert(with_lines(before, link_rows(*a, root@, 0)).lines =~= before.lines);
    for i in 0..a.mappings.len()
        invariant
            maps == links(a.mappings@),
            rows@ == with_lines(before, link_rows(*a, root@, i as int)),
            any == (link_rows(*a, root@, i as int).len() > 0),
    {
        let m = &a.mappings[i];
        let ghost done = link_rows(*a, root@, i as int);
        assert(maps[i as int] == m@);
        assert(with_lines(before, done + target_rows(*a, root@, m@, 0)).lines =~= rows@.lines);
        assert(done + target_rows(*a, root@, m@, 0) =~= done);
        for j in 0..m.targets.len()
            invariant
                rows@ == with_lines(before, done + target_rows(*a, root@, m@, j as int)),
                any == ((done + target_rows(*a, root@, m@, j as int)).len() > 0),
        {
            let ghost so_far = done + target_rows(*a, root@, m@, j as int);
            assert(m@.targets[j as int] == m.targets@[j as int]@);
            if m.targets[j].strip_prefix(root).is_some() {
                any = true;
                rows.push(link_line(a, &m.source_rel, &m.targets[j]));
                let ghost next = done + target_rows(*a, root@, m@, j + 1);
                assert(next =~= so_far.push(link_row(*a, m.source_rel@, m.targets@[j as int]@)));
                assert(rows@.lines =~= with_lines(before, next).lines);
            }
        }
        assert(m@.targets.len() == m.targets@.len());
    }
    if !any {
        rows.push(
            line1(italic("      (no mappings into this folder yet)", theme::TEXT_DIM)),
        );
    }
    assert(rows@.lines =~= with_lines(before, open_rows(*a, r as int)).lines);
}

/// The accordion of the destination folders, each in numbers, and the mappings that
/// write into the open one.
pub fn info_rows(a: &MapApp) -> (res: Rows)
    requires
        total_bytes(*a, a.dest_files@.len() as int) <= u64::MAX,
    ensures
        res@ == root_rows(*a, a.dest_roots@.len() as int),
{
    let mut rows = Rows::new();
    for r in 0..a.dest_roots.len()
        invariant
            rows@ == root_rows(*a, r as int),
            total_bytes(*a, a.dest_files@.len() as int) <= u64::MAX,
    {
        rows.push_stop(root_line(a, r));
        if a.info_expanded == Some(r) {
            push_open(&mut rows, a, r);
        }
    }
    rows
}

/// The title of the accordion.
pub fn info_title(a: &MapApp) -> (res: String)
    requires
        target_count(links(a.mappings@)) <= usize::MAX,
    ensures
        res@ == "destination folders  ·  "@ + decimal(a.mappings@.len()) + " mapping(s) → "@
            + decimal(target_count(links(a.mappings@))) + " target(s)"@,
{
    let ghost all = links(a.mappings@);
    let mut n: usize = 0;
    for i in 0..a.mappings.len()
        invariant
            all == links(a.mappings@),
            n == target_count(all.take(i as int)),
            target_count(all) <= usize::MAX,
    {
        proof {
            crate::ui::browser::lemma_target_count_take(all, i + 1);
            assert(all.take(i + 1).drop_last() =~= all.take(i as int));
            assert(all.take(i + 1).last() == a.mappings@[i as int]@);
        }
        n += a.mappings[i].targets.len();
    }
    assert(all.take(a.mappings@.len() as int) =~= all);
    let mut s = "destination folders  ·  ".to_owned();
    s.append(text::decimal_usize(a.mappings.len()).as_str());
    s.append(" mapping(s) → ");
    s.append(text::decimal_usize(n).as_str());
    s.append(" target(s)");
    s
}

// --- Summary ---------------------------------------------------------------

/// The color of a target's state.
pub open spec fn state_color_of(state: TargetState) -> u32 {
    match state {
        TargetState::Create => theme::COPY,
        TargetState::Update => theme::OVERWRITE,
        TargetState::UpToDate => theme::SUCCESS,
        TargetState::SourceMissing => theme::ERROR,
    }
}

fn state_color(state: TargetState) -> (res: u32)
    ensures
        res == state_color_of(state),
{
    match state {
        TargetState::Create => theme::COPY,
        TargetState::Update => theme::OVERWRITE,
        TargetState::UpToDate => theme::SUCCESS,
        TargetState::SourceMissing => theme::ERROR,
    }
}

/// The line of an issue.
pub open spec fn issue_row(f: Flaw) -> Seq<Run> {
    seq![
        run(
            "  • "@ + flaw_text(f),
            in_color(
                if is_blocking_flaw(f) {
                    theme::ERROR
                } else {
                    theme::OVERWRITE
                },
            ),
        ),
    ]
}

/// The line of a target.
pub open spec fn target_row(t: Target) -> Seq<Run> {
    let row = seq![
        run("  "@ + pad_right(state_label(t.state), 8), in_bold(state_color_of(t.state))),
        run(lossy_text(t.source_rel) + "  →  "@, in_color(theme::AMBER)),
        run(lossy_text(t.target), in_color(theme::TEXT)),
    ];
    match mode_note(t.banner) {
        Some(note) => row.push(run("   ["@ + note + "]"@, in_color(theme::TEXT_DIM))),
        None => row,
    }
}

/// The lines of the issues, if there are any.
pub open spec fn issues_view(fs: Seq<Flaw>) -> Seq<Seq<Run>> {
    if fs.len() == 0 {
        Seq::empty()
    } else {
        (seq![seq![run("Issues:"@, in_bold(theme::ERROR))]] + fs.map_values(
            |f: Flaw| issue_row(f),
        )).push(blank_line())
    }
}

/// The lines of the totals.
pub open spec fn totals_view(s: MappingStats) -> Seq<Seq<Run>> {
    let head = seq![
        blank_line(),
        seq![
            run(
                decimal(s.created as nat) + " to create · "@ + decimal(s.updated as nat)
                    + " to update · "@ + decimal(s.up_to_date as nat) + " up to date · "@
                    + bytes_text(s.bytes as nat) + " bytes"@,
                in_bold(theme::SUCCESS),
            ),
        ],
    ];
    if s.source_missing > 0 || s.banner_skipped > 0 {
        head.push(
            seq![
                run(
                    decimal(s.source_missing as nat) + " source(s) missing · "@ + decimal(
                        s.banner_skipped as nat,
                    ) + " without a banner"@,
                    in_color(theme::TEXT_DIM),
                ),
            ],
        )
    } else {
        head
    }
}

/// The lines of the summary: issues, targets and totals.
pub open spec fn summary_view(a: MapApp) -> Seq<Seq<Run>> {
    match a.plan {
        None => Seq::empty(),
        Some(p) => issues_view(flaws(a.issues@)) + targets_view(p.targets@).map_values(
            |t: Target| target_row(t),
        ) + totals_view(p.stats),
    }
}

fn issue_lines(issues: &Vec<Issue>) -> (res: Lines)
    ensures
        res@ == issues_view(flaws(issues@)),
{
    let mut lines = Lines::new();
    if issues.len() == 0 {
        return lines;
    }
    lines.push(line1(bold("Issues:", theme::ERROR)));
    let ghost head = lines@;
    let ghost fs = flaws(issues@);
    let ghost all = fs.map_values(|f: Flaw| issue_row(f));
    assert(head + all.take(0) =~= head);
    for i in 0..issues.len()
        invariant
            fs == flaws(issues@),
            all == fs.map_values(|f: Flaw| issue_row(f)),
            lines@ == head + all.take(i as int),
    {
        let issue = &issues[i];
        let color = if issue.is_blocking() {
            theme::ERROR
        } else {
            theme::OVERWRITE
        };
        assert(fs[i as int] == issue@);
        lines.push(
            line1(colored(text::concat("  • ", issue.message().as_str()).as_str(), color)),
        );
        assert(head + all.take(i + 1) =~= (head + all.take(i as int)).push(all[i as int]));
    }
    assert(all.take(issues@.len() as int) =~= all);
    lines.push(view::blank());
    assert(head =~= seq![seq![run("Issues:"@, in_bold(theme::ERROR))]]);
    lines
}

fn target_line(t: &TargetPlan) -> (res: Line)
    ensures
        res@ == target_row(t@),
{
    let label = text::concat("  ", text::padded_right(t.state.label(), 8).as_str());
    let mut line = line3(
        bold(label.as_str(), state_color(t.state)),
        colored(text::concat(t.source_rel.display().as_str(), "  →  ").as_str(), theme::AMBER),
        colored(t.target.display().as_str(), theme::TEXT),
    );
    if let Some(note) = t.banner.note() {
        line.push(colored(text::concat3("   [", note, "]").as_str(), theme::TEXT_DIM));
    }
    line
}

fn total_lines(s: &MappingStats) -> (res: Lines)
    ensures
        res@ == totals_view(*s),
{
    let mut lines = Lines::new();
    lines.push(view::blank());
    let mut t = text::decimal_usize(s.created);
    t.append(" to create · ");
    t.append(text::decimal_usize(s.updated).as_str());
    t.append(" to update · ");
    t.append(text::decimal_usize(s.up_to_date).as_str());
    t.append(" up to date · ");
    t.append(human_bytes(s.bytes).as_str());
    t.append(" bytes");
    lines.push(line1(bold(t.as_str(), theme::SUCCESS)));
    if s.source_missing > 0 || s.banner_skipped > 0 {
        let mut t = text::decimal_usize(s.source_missing);
        t.append(" source(s) missing · ");
        t.append(text::decimal_usize(s.banner_skipped).as_str());
        t.append(" without a banner");
        lines.push(line1(colored(t.as_str(), theme::TEXT_DIM)));
    }
    assert(lines@ =~= totals_view(*s));
    lines
}

/// The lines of the summary: blocking and other issues, then each target, then the
/// totals.
pub fn summary_lines(a: &MapApp) -> (res: Lines)
    ensures
        res@ == summary_view(*a),
{
    let p = match &a.plan {
        Some(p) => p,
        None => {
            return Lines::new();
        },
    };
    let mut lines = issue_lines(&a.issues);
    let ghost head = lines@;
    let ghost targets = targets_view(p.targets@);
    let ghost all = targets.map_values(|t: Target| target_row(t));
    assert(head + all.take(0) =~= head);
    for i in 0..p.targets.len()
        invariant
            targets == targets_view(p.targets@),
            all == targets.map_values(|t: Target| target_row(t)),
            lines@ == head + all.take(i as int),
    {
        assert(targets[i as int] == p.targets@[i as int]@);
        lines.push(target_line(&p.targets[i]));
        assert(head + all.take(i + 1) =~= (head + all.take(i as int)).push(all[i as int]));
    }
    assert(all.take(p.targets@.len() as int) =~= all);
    lines.append(total_lines(&p.stats));
    lines
}

// --- Done and error --------------------------------------------------------

/// The lines of the screen that a sync ends on.
pub open spec fn done_view(a: MapApp) -> Seq<Seq<Run>> {
    seq![
        match a.synced_at {
            Some(ts) => seq![
                run("Last sync: "@, in_color(theme::TEXT_DIM)),
                run("OK"@, in_bold(theme::SUCCESS)),
                run("  ·  synced at "@ + ts@, in_color(theme::TEXT)),
            ],
            None => seq![run("Dry run complete — nothing was written."@, in_bold(theme::GOLD))],
        },
        blank_line(),
        seq![run(a.summary@, in_color(theme::TEXT))],
    ]
}

/// The lines of the screen that a sync ends on.
pub fn done_lines(a: &MapApp) -> (res: Lines)
    ensures
        res@ == done_view(*a),
{
    let mut lines = Lines::new();
    match &a.synced_at {
        Some(ts) => {
            lines.push(
                line3(
                    colored("Last sync: ", theme::TEXT_DIM),
                    bold("OK", theme::SUCCESS),
                    colored(text::concat("  ·  synced at ", ts.as_str()).as_str(), theme::TEXT),
                ),
            );
        },
        None => {
            lines.push(line1(bold("Dry run complete — nothing was written.", theme::GOLD)));
        },
    }
    lines.push(view::blank());
    lines.push(line1(colored(a.summary.as_str(), theme::TEXT)));
    assert(lines@ =~= done_view(*a));
    lines
}

/// The lines of the error screen.
pub open spec fn error_view(a: MapApp) -> Seq<Seq<Run>> {
    seq![
        seq![run("The mapping sync could not complete:"@, in_bold(theme::ERROR))],
        blank_line(),
        seq![
            run(
                match a.error_msg {
                    Some(m) => m@,
                    None => "Unknown error."@,
                },
                in_color(theme::TEXT),
            ),
        ],
    ]
}

/// The lines of the error screen.
pub fn error_lines(a: &MapApp) -> (res: Lines)
    ensures
        res@ == error_view(*a),
{
    let mut lines = Lines::new();
    lines.push(line1(bold("The mapping sync could not complete:", theme::ERROR)));
    lines.push(view::blank());
    let text = match &a.error_msg {
        Some(m) => m.as_str(),
        None => "Unknown error.",
    };
    lines.push(line1(colored(text, theme::TEXT)));
    assert(lines@ =~= error_view(*a));
    lines
}

// --- Exit dialog -----------------------------------------------------------

/// What the exit dialog asks.
pub fn exit_question() -> (res: &'static str)
    ensures
        res@ == "Are you sure to exit mapping tab?"@,
{
    "Are you sure to exit mapping tab?"
}

/// The buttons of the exit dialog.
pub fn exit_buttons(choice: ExitChoice) -> (res: Line)
    ensures
        res@ == seq![
            button_view("Confirm"@, choice == ExitChoice::Confirm),
            run("      "@, unstyled()),
            button_view("Cancel"@, choice == ExitChoice::Cancel),
        ],
{
    line3(
        quit_button("Confirm", choice == ExitChoice::Confirm),
        view::raw("      "),
        quit_button("Cancel", choice == ExitChoice::Cancel),
    )
}

// --- Laws ------------------------------------------------------------------

/// The summary shows every issue and every row of the plan: the issues first, under a
/// heading, then the rows in order, each with what is to be done, its source and its
/// target.
pub proof fn law_summaries_show_everything(a: MapApp, i: int, j: int)
    requires
        a.plan is Some,
    ensures
        ({
            let all = summary_view(a);
            let fs = flaws(a.issues@);
            let rows = targets_view(a.plan->0.targets@);
            let at = if fs.len() == 0 {
                0
            } else {
                fs.len() + 2
            };
            &&& 0 <= i < fs.len() ==> 1 + i < all.len() && all[1 + i][0].text == "  • "@
                + flaw_text(fs[i])
            &&& 0 <= j < rows.len() ==> {
                &&& at + j < all.len()
                &&& all[at + j].len() >= 3
                &&& all[at + j][0].text == "  "@ + pad_right(
                    match rows[j].state {
                        TargetState::Create => "create"@,
                        TargetState::Update => "update"@,
                        TargetState::UpToDate => "ok"@,
                        TargetState::SourceMissing => "missing"@,
                    },
                    8,
                )
                &&& all[at + j][1].text == lossy_text(rows[j].source_rel) + "  →  "@
                &&& all[at + j][2].text == lossy_text(rows[j].target)
            }
        }),
{
    let fs = flaws(a.issues@);
    let rows = targets_view(a.plan->0.targets@);
    let head = issues_view(fs);
    let mid = rows.map_values(|t: Target| target_row(t));
    if 0 <= i < fs.len() {
        assert(head[1 + i] == issue_row(fs[i]));
    }
    if 0 <= j < rows.len() {
        assert(summary_view(a)[head.len() + j] == mid[j]);
    }
}

/// The totals line says how many targets are to be created and updated, how many are up to
/// date, and how much is written.
pub proof fn law_totals_are_shown(s: MappingStats)
    ensures
        totals_view(s).len() >= 2,
        totals_view(s)[1][0].text == decimal(s.created as nat) + " to create · "@ + decimal(
            s.updated as nat,
        ) + " to update · "@ + decimal(s.up_to_date as nat) + " up to date · "@ + bytes_text(
            s.bytes as nat,
        ) + " bytes"@,
        s.source_missing > 0 || s.banner_skipped > 0 <==> totals_view(s).len() == 3,
{
}

/// A source is marked as mapped exactly where a mapping has it, and as chosen exactly where
/// it is the one that is selected.
pub proof fn law_sources_are_marked(a: MapApp, i: int)
    requires
        0 <= i < a.source_files@.len(),
    ensures
        ({
            let rel = a.source_files@[i]@;
            let line = source_row(a, i);
            &&& line[0].text == lossy_text(rel)
            &&& line.len() == 2 <==> exists|k: int|
                0 <= k < links(a.mappings@).len() && same_path(
                    (#[trigger] links(a.mappings@)[k]).source_rel,
                    rel,
                )
            &&& line.len() == 2 ==> line[1].text == "  (mapped)"@
            &&& line[0].style.bg is Some <==> (a.selected_source matches Some(s) && same_path(
                s@,
                rel,
            ))
        }),
{
    let maps = links(a.mappings@);
    let rel = a.source_files@[i]@;
    lemma_find_source(maps, rel);
    lemma_source_is_absent(maps, rel);
    if find_source(maps, rel) is Some {
        let k = find_source(maps, rel)->0;
        assert(same_path(maps[k].source_rel, rel));
    }
}

/// An available file is ticked exactly where it is selected.
pub proof fn law_selected_targets_are_ticked(a: MapApp, f: usize)
    requires
        f < a.dest_files@.len(),
    ensures
        ({
            let line = avail_row(a, AvailRow::File(f));
            let chosen = exists|k: int|
                0 <= k < a.selected_targets@.len() && same_path(
                    (#[trigger] a.selected_targets@[k])@,
                    a.dest_files@[f as int].abs@,
                );
            &&& chosen <==> line.len() == 2
            &&& chosen ==> line[0].text == "    ✓ "@ && line[1].text == lossy_text(
                a.dest_files@[f as int].rel@,
            )
            &&& !chosen ==> line[0].text == "      "@ + lossy_text(a.dest_files@[f as int].rel@)
        }),
{
    let all = path_bytes(a.selected_targets@);
    let abs = a.dest_files@[f as int].abs@;
    crate::ui::browser::lemma_find_path(all, abs);
    if find_path(all, abs) is Some {
        let k = find_path(all, abs)->0;
        assert(same_path(a.selected_targets@[k]@, abs));
    } else {
        assert forall|k: int| 0 <= k < a.selected_targets@.len() implies !same_path(
            (#[trigger] a.selected_targets@[k])@,
            abs,
        ) by {
            assert(all[k] == a.selected_targets@[k]@);
        }
    }
}

/// A destination folder is summed up by its own files: their number, their sizes, and how
/// many of them are mapped.
pub proof fn law_folders_are_summed_up(a: MapApp, r: int, n: int)
    requires
        0 <= n <= a.dest_files@.len(),
    ensures
        files_in(a, r, n) == a.dest_files@.take(n).filter(|f: DestFile| f.root_idx == r).len(),
        bytes_in_root(a, r, n) == a.dest_files@.take(n).fold_left(
            0,
            |s: int, f: DestFile|
                if f.root_idx == r {
                    s + f.size
                } else {
                    s
                },
        ),
        mapped_in(a, r, n) == a.dest_files@.take(n).filter(
            |f: DestFile| f.root_idx == r && is_mapped(links(a.mappings@), f.abs@),
        ).len(),
    decreases n,
{
    reveal(Seq::filter);
    if n > 0 {
        law_folders_are_summed_up(a, r, n - 1);
        assert(a.dest_files@.take(n).drop_last() =~= a.dest_files@.take(n - 1));
        assert(a.dest_files@.take(n).last() == a.dest_files@[n - 1]);
    }
}

} // verus!
