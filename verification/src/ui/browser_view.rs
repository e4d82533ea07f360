//! What the home screen shows.

use vstd::prelude::*;
use vstd::string::*;

use crate::path::{components, same_path};
use crate::resolve::{canonical_of, Place, Resolver};
use crate::store::links;
use crate::text::{self, decimal, lossy_text, pad_right};
use crate::theme;
use crate::ui::browser::{
    count_true, dest_targets, find_path, law_conflicts_are_overlaps, lemma_find_path, mapped_below,
    pick_conflict, target_count, targets_of, Browser, Conflict, MainFocus, Mode, PickTarget,
    QuitChoice,
};
use crate::ui::groups::{group_mappings, grouped, groups_view, FileModel, Group, GroupModel};
use crate::ui::view::{
    self, blank_line, bold, bold_on, colored, in_bold, in_bold_on, in_color, in_italics, italic,
    line1, line2, line3, run, unstyled, Line, Lines, Run, Span, Style,
};
use crate::ui::widgets::{bytes_text, folder_label, folder_name, human_bytes};

verus! {

// --- Frame -----------------------------------------------------------------

/// What the header says the screen is for.
pub open spec fn subtitle_text(b: Browser) -> Seq<char> {
    match b.mode {
        Mode::Main => if b.source is None && b.destinations@.len() == 0 {
            "first-run setup"@
        } else {
            "home"@
        },
        Mode::Browsing(PickTarget::Source) => "select source folder"@,
        Mode::Browsing(PickTarget::Destination) => "select destination folders"@,
    }
}

fn subtitle(b: &Browser) -> (res: &'static str)
    ensures
        res@ == subtitle_text(*b),
{
    match b.mode {
        Mode::Main => if b.source.is_none() && b.destinations.len() == 0 {
            "first-run setup"
        } else {
            "home"
        },
        Mode::Browsing(PickTarget::Source) => "select source folder",
        Mode::Browsing(PickTarget::Destination) => "select destination folders",
    }
}

/// The lines of the header.
pub open spec fn header_view(b: Browser) -> Seq<Seq<Run>> {
    seq![
        seq![
            run("bukagu"@, in_bold(theme::GOLD)),
            run("  ·  "@ + subtitle_text(b), in_color(theme::TEXT_DIM)),
        ],
        seq![
            run("Root Project  "@, in_color(theme::TEXT_DIM)),
            run(lossy_text(b.root@), in_color(theme::TEXT)),
        ],
    ]
}

/// The lines of the header: what the screen is for, and the launch folder.
pub fn header_lines(b: &Browser) -> (res: Lines)
    ensures
        res@ == header_view(*b),
{
    let mut lines = Lines::new();
    lines.push(
        line2(
            bold("bukagu", theme::GOLD),
            colored(text::concat("  ·  ", subtitle(b)).as_str(), theme::TEXT_DIM),
        ),
    );
    lines.push(
        line2(
            colored("Root Project  ", theme::TEXT_DIM),
            colored(b.root.display().as_str(), theme::TEXT),
        ),
    );
    assert(lines@ =~= header_view(*b));
    lines
}

/// The border of a pane, by whether it has focus.
pub open spec fn border_style(focused: bool) -> Style {
    if focused {
        in_bold(theme::GOLD)
    } else {
        in_color(theme::PANEL_BORDER)
    }
}

/// The border of a pane, by whether it has focus.
pub fn border_for(focused: bool) -> (res: Style)
    ensures
        res == border_style(focused),
{
    if focused {
        Style { fg: Some(theme::GOLD), bg: None, bold: true, italic: false }
    } else {
        Style { fg: Some(theme::PANEL_BORDER), bg: None, bold: false, italic: false }
    }
}

/// The highlighted row.
pub fn highlight() -> (res: Style)
    ensures
        res == in_bold_on(theme::BG, theme::SELECTION),
{
    Style { fg: Some(theme::BG), bg: Some(theme::SELECTION), bold: true, italic: false }
}

/// The keys that the footer names.
pub open spec fn footer_keys(b: Browser) -> Seq<char> {
    match b.mode {
        Mode::Browsing(PickTarget::Source) =>
            "↑/↓ move  →/Enter open  ←/Bksp up  r root  Space pick  Esc cancel  Ctrl+Q keys"@,
        Mode::Browsing(PickTarget::Destination) =>
            "↑/↓ move  →/Enter open  ←/Bksp up  r root  Space select/deselect  Esc done  Ctrl+Q keys"@,
        Mode::Main => match b.main_focus {
            MainFocus::Actions =>
                "↑/↓ choose  Enter activate  [s] source  [a] dest  [c] sync  [m] map files  Tab focus  [q] quit"@,
            MainFocus::Info =>
                "↑/↓ move  Enter expand/collapse  Bksp collapse  [c] sync  [m] map files  Tab focus  [q] quit"@,
        },
    }
}

/// The lines of the footer: the status and the keys.
pub fn footer_lines(b: &Browser) -> (res: Lines)
    ensures
        res@ == seq![
            seq![
                run(
                    b.status@,
                    in_color(
                        if b.status_is_error {
                            theme::ERROR
                        } else {
                            theme::ACCENT
                        },
                    ),
                ),
            ],
            seq![run(footer_keys(*b), in_color(theme::TEXT_DIM))],
        ],
{
    let keys = match b.mode {
        Mode::Browsing(PickTarget::Source) =>
            "↑/↓ move  →/Enter open  ←/Bksp up  r root  Space pick  Esc cancel  Ctrl+Q keys",
        Mode::Browsing(PickTarget::Destination) =>
            "↑/↓ move  →/Enter open  ←/Bksp up  r root  Space select/deselect  Esc done  Ctrl+Q keys",
        Mode::Main => match b.main_focus {
            MainFocus::Actions =>
                "↑/↓ choose  Enter activate  [s] source  [a] dest  [c] sync  [m] map files  Tab focus  [q] quit",
            MainFocus::Info =>
                "↑/↓ move  Enter expand/collapse  Bksp collapse  [c] sync  [m] map files  Tab focus  [q] quit",
        },
    };
    let color = if b.status_is_error {
        theme::ERROR
    } else {
        theme::ACCENT
    };
    let mut lines = Lines::new();
    lines.push(line1(colored(b.status.as_str(), color)));
    lines.push(line1(colored(keys, theme::TEXT_DIM)));
    assert(lines@ =~= seq![
        seq![run(b.status@, in_color(color))],
        seq![run(footer_keys(*b), in_color(theme::TEXT_DIM))],
    ]);
    lines
}

// --- Actions ---------------------------------------------------------------

/// A line of the actions pane.
pub open spec fn action_row(label: Seq<char>, hint: Run) -> Seq<Run> {
    seq![run(label, in_color(theme::TEXT)), hint]
}

/// The hint of an action that needs a source and a destination.
pub open spec fn ready_hint(ready: bool, hint: Seq<char>) -> Run {
    if ready {
        run(hint, in_color(theme::COPY))
    } else {
        run("  (choose a source + destination first)"@, in_color(theme::TEXT_DIM))
    }
}

/// The lines of the actions pane.
pub open spec fn actions_view(b: Browser) -> Seq<Seq<Run>> {
    let ready = b.source is Some && b.destinations@.len() > 0;
    seq![
        action_row(
            "Select source folder"@,
            match b.source {
                Some(s) => run("  → "@ + lossy_text(s@), in_color(theme::AMBER)),
                None => run("  (not chosen)"@, in_color(theme::TEXT_DIM)),
            },
        ),
        action_row(
            "Select destination folder"@,
            if b.destinations@.len() == 0 {
                run("  (none yet)"@, in_color(theme::TEXT_DIM))
            } else {
                run("  ("@ + decimal(b.destinations@.len()) + " added)"@, in_color(theme::COPY))
            },
        ),
        action_row("Sync now"@, ready_hint(ready, "  (mirror source → destinations)"@)),
        action_row("Map files"@, ready_hint(ready, "  (map individual files, with a banner)"@)),
        action_row(
            "Backup now"@,
            match b.source {
                Some(_) => run(
                    "  (encrypted backup of the source → ~/bukagu-backups)"@,
                    in_color(theme::COPY),
                ),
                None => run("  (choose a source first)"@, in_color(theme::TEXT_DIM)),
            },
        ),
    ]
}

fn hint_when(ready: bool, hint: &str) -> (res: Span)
    ensures
        res@ == ready_hint(ready, hint@),
{
    if ready {
        colored(hint, theme::COPY)
    } else {
        colored("  (choose a source + destination first)", theme::TEXT_DIM)
    }
}

/// The lines of the actions pane: each action, with a hint of what it stands at.
pub fn actions_lines(b: &Browser) -> (res: Lines)
    ensures
        res@ == actions_view(*b),
{
    let ready = b.source.is_some() && b.destinations.len() > 0;
    let source_hint = match &b.source {
        Some(s) => colored(text::concat("  → ", s.display().as_str()).as_str(), theme::AMBER),
        None => colored("  (not chosen)", theme::TEXT_DIM),
    };
    let dest_hint = if b.destinations.len() == 0 {
        colored("  (none yet)", theme::TEXT_DIM)
    } else {
        let count = text::concat3(
            "  (",
            text::decimal_usize(b.destinations.len()).as_str(),
            " added)",
        );
        colored(count.as_str(), theme::COPY)
    };
    let backup_hint = if b.source.is_some() {
        colored("  (encrypted backup of the source → ~/bukagu-backups)", theme::COPY)
    } else {
        colored("  (choose a source first)", theme::TEXT_DIM)
    };
    let mut lines = Lines::new();
    lines.push(line2(colored("Select source folder", theme::TEXT), source_hint));
    lines.push(line2(colored("Select destination folder", theme::TEXT), dest_hint));
    lines.push(
        line2(
            colored("Sync now", theme::TEXT),
            hint_when(ready, "  (mirror source → destinations)"),
        ),
    );
    lines.push(
        line2(
            colored("Map files", theme::TEXT),
            hint_when(ready, "  (map individual files, with a banner)"),
        ),
    );
    lines.push(line2(colored("Backup now", theme::TEXT), backup_hint));
    assert(lines@ =~= actions_view(*b));
    lines
}

// --- Info ------------------------------------------------------------------

/// A folder's totals.
#[derive(Debug, Clone, Copy, PartialEq, Eq, Structural)]
pub struct FolderStats {
    /// The sizes of its files, links left out.
    pub bytes: u64,
    /// How many files it has, links left out.
    pub files: usize,
}

/// What the file system says of the folders that the info pane shows.
#[derive(Debug)]
pub struct InfoFacts {
    /// The totals of the source.
    pub source_stats: FolderStats,
    /// Of each mapping, whether its source file exists.
    pub is_file: Vec<bool>,
    /// The totals of the expanded destination.
    pub open_stats: FolderStats,
}

/// A folder in numbers.
pub open spec fn stats_text(stats: FolderStats, mapped: nat, indent: Seq<char>) -> Seq<char> {
    indent + bytes_text(stats.bytes as nat) + "  ·  "@ + decimal(stats.files as nat) + " "@ + (
    if stats.files == 1 {
        "file"@
    } else {
        "files"@
    }) + "  ·  "@ + decimal(mapped) + " mapped"@
}

/// The line that sums up a folder; `None` where none is chosen.
pub open spec fn stat_view(stats: Option<FolderStats>, mapped: nat, indent: Seq<char>) -> Seq<Run> {
    match stats {
        None => seq![run(indent + "(not chosen yet)"@, in_italics(theme::TEXT_DIM))],
        Some(s) => seq![run(stats_text(s, mapped, indent), in_color(theme::TEXT))],
    }
}

fn folder_stat_line(stats: Option<FolderStats>, mapped: usize, indent: &str) -> (res: Line)
    ensures
        res@ == stat_view(stats, mapped as nat, indent@),
{
    match stats {
        None => line1(
            italic(text::concat(indent, "(not chosen yet)").as_str(), theme::TEXT_DIM),
        ),
        Some(stats) => {
            let mut s = indent.to_owned();
            s.append(human_bytes(stats.bytes).as_str());
            s.append("  ·  ");
            s.append(text::decimal_usize(stats.files).as_str());
            s.append(" ");
            s.append(
                if stats.files == 1 {
                    "file"
                } else {
                    "files"
                },
            );
            s.append("  ·  ");
            s.append(text::decimal_usize(mapped).as_str());
            s.append(" mapped");
            line1(colored(s.as_str(), theme::TEXT))
        },
    }
}

/// Lines, some of which can be selected.
#[derive(Debug)]
pub struct Rows {
    pub lines: Lines,
    /// The positions of the selectable lines.
    pub stops: Vec<usize>,
}

/// What [`Rows`] show.
pub struct RowsModel {
    pub lines: Seq<Seq<Run>>,
    pub stops: Seq<usize>,
}

impl RowsModel {
    /// With one more line.
    pub open spec fn plus(self, line: Seq<Run>) -> RowsModel {
        RowsModel { lines: self.lines.push(line), stops: self.stops }
    }

    /// With one more line, which can be selected.
    pub open spec fn plus_stop(self, line: Seq<Run>) -> RowsModel {
        RowsModel {
            lines: self.lines.push(line),
            stops: self.stops.push(self.lines.len() as usize),
        }
    }
}

impl View for Rows {
    type V = RowsModel;

    open spec fn view(&self) -> RowsModel {
        RowsModel { lines: self.lines@, stops: self.stops@ }
    }
}

/// No rows.
pub open spec fn no_rows() -> RowsModel {
    RowsModel { lines: Seq::empty(), stops: Seq::empty() }
}

impl Rows {
    /// No rows.
    pub fn new() -> (res: Rows)
        ensures
            res@ == no_rows(),
    {
        let res = Rows { lines: Lines::new(), stops: Vec::new() };
        assert(res@.stops =~= Seq::empty());
        res
    }

    /// Add a line.
    pub fn push(&mut self, line: Line)
        ensures
            final(self)@ == old(self)@.plus(line@),
    {
        self.lines.push(line);
    }

    /// Add a line that can be selected.
    pub fn push_stop(&mut self, line: Line)
        ensures
            final(self)@ == old(self)@.plus_stop(line@),
    {
        let at: usize = self.lines.len();
        self.stops.push(at);
        self.lines.push(line);
    }

    /// The position of the `n`-th selectable line, or of the last.
    pub fn selected(&self, n: usize) -> (res: Option<usize>)
        ensures
            res == selected_row(self@, n),
    {
        if self.stops.len() == 0 {
            return None;
        }
        let last: usize = self.stops.len() - 1;
        Some(
            self.stops[if n < last {
                n
            } else {
                last
            }],
        )
    }
}

/// The position of the `n`-th selectable line, or of the last.
pub open spec fn selected_row(rows: RowsModel, n: usize) -> Option<usize> {
    if rows.stops.len() == 0 {
        None
    } else {
        let last = rows.stops.len() - 1;
        Some(
            rows.stops[if n < last {
                n as int
            } else {
                last
            }],
        )
    }
}

/// The mark of a row that is open or closed.
pub open spec fn caret_text(open: bool) -> Seq<char> {
    if open {
        "▾"@
    } else {
        "▸"@
    }
}

/// The mark of a row that is open or closed.
pub fn caret(open: bool) -> (res: &'static str)
    ensures
        res@ == caret_text(open),
{
    if open {
        "▾"
    } else {
        "▸"
    }
}

/// The line of a mapped file.
pub open spec fn mapped_file_view(f: FileModel) -> Seq<Run> {
    seq![
        run("          "@ + lossy_text(f.name), in_color(theme::AMBER)),
        run("  →  "@, in_color(theme::TEXT_DIM)),
        run(lossy_text(f.rel), in_color(theme::COPY)),
    ]
}

/// Rows with the first `n` files of a group.
pub open spec fn with_files(rows: RowsModel, files: Seq<FileModel>, n: int) -> RowsModel
    decreases n,
{
    if n <= 0 {
        rows
    } else {
        with_files(rows, files, n - 1).plus(mapped_file_view(files[n - 1]))
    }
}

/// The line of a group.
pub open spec fn group_head_view(g: GroupModel, open: bool) -> Seq<Run> {
    seq![
        run("      "@ + caret_text(open) + " "@, in_color(theme::TEXT_DIM)),
        run(
            if g.folder.len() == 0 {
                "(source root)"@
            } else {
                lossy_text(g.folder) + "/"@
            },
            in_bold(theme::AMBER),
        ),
        run("  ("@ + decimal(g.files.len()) + ")"@, in_color(theme::TEXT_DIM)),
    ]
}

/// Rows with the first `n` groups of a destination.
pub open spec fn with_groups(
    rows: RowsModel,
    groups: Seq<GroupModel>,
    open: Option<usize>,
    n: int,
) -> RowsModel
    decreases n,
{
    if n <= 0 {
        rows
    } else {
        let g = groups[n - 1];
        let is_open = open == Some((n - 1) as usize);
        let head = with_groups(rows, groups, open, n - 1).plus_stop(group_head_view(g, is_open));
        if is_open {
            with_files(head, g.files, g.files.len() as int)
        } else {
            head
        }
    }
}

/// Rows with what the expanded destination `i` holds.
pub open spec fn with_open(
    rows: RowsModel,
    b: Browser,
    known: Seq<Place>,
    facts: InfoFacts,
    i: int,
) -> RowsModel {
    let root = canonical_of(known, b.destinations@[i]@);
    let groups = grouped(links(b.mappings@), root);
    let stats = rows.plus(
        stat_view(
            Some(facts.open_stats),
            mapped_below(links(b.mappings@), root),
            "      "@,
        ),
    );
    if groups.len() == 0 {
        stats.plus(
            seq![
                run(
                    "      (no files mapped into this folder yet)"@,
                    in_italics(theme::TEXT_DIM),
                ),
            ],
        )
    } else {
        with_groups(stats, groups, b.info_folder_expanded, groups.len() as int)
    }
}

/// Rows with the first `n` destinations.
pub open spec fn with_dests(
    rows: RowsModel,
    b: Browser,
    known: Seq<Place>,
    facts: InfoFacts,
    n: int,
) -> RowsModel
    decreases n,
{
    if n <= 0 {
        rows
    } else {
        let open = b.info_dest_expanded == Some((n - 1) as usize);
        let head = with_dests(rows, b, known, facts, n - 1).plus_stop(
            seq![
                run("  "@ + caret_text(open) + " "@, in_color(theme::TEXT_DIM)),
                run(lossy_text(b.destinations@[n - 1]@), in_color(theme::COPY)),
            ],
        );
        if open {
            with_open(head, b, known, facts, n - 1)
        } else {
            head
        }
    }
}

/// The rows with the result of the last run, if there was one.
pub open spec fn last_run_view(b: Browser) -> RowsModel {
    match b.last_run {
        Some(last) => no_rows().plus(
            seq![
                run("Last run  "@, in_bold(theme::GOLD)),
                run(last@, in_color(theme::SUCCESS)),
            ],
        ).plus(blank_line()),
        None => no_rows(),
    }
}

/// The line that names the source.
pub open spec fn source_line_view(b: Browser) -> Seq<Run> {
    match b.source {
        Some(src) => seq![
            run("Source  "@, in_bold(theme::GOLD)),
            run(lossy_text(src@), in_color(theme::AMBER)),
        ],
        None => seq![
            run("Source  "@, in_bold(theme::GOLD)),
            run("(not chosen yet)"@, in_italics(theme::TEXT_DIM)),
        ],
    }
}

/// The line that sums up the source.
pub open spec fn source_stat_view(b: Browser, facts: InfoFacts) -> Seq<Run> {
    if b.source is Some {
        stat_view(Some(facts.source_stats), count_true(facts.is_file@), "    "@)
    } else {
        stat_view(None, 0, "    "@)
    }
}

/// The rows above the destination list.
pub open spec fn source_view(b: Browser, facts: InfoFacts) -> RowsModel {
    last_run_view(b).plus(source_line_view(b)).plus(source_stat_view(b, facts)).plus(blank_line())
}

/// The rows of the info pane.
pub open spec fn info_view(b: Browser, known: Seq<Place>, facts: InfoFacts) -> RowsModel {
    let head = source_view(b, facts).plus_stop(
        seq![
            run(
                caret_text(b.info_dest_list_open) + " Destination Folders ("@ + decimal(
                    b.destinations@.len(),
                ) + ")"@,
                in_bold(theme::GOLD),
            ),
        ],
    );
    if !b.info_dest_list_open {
        head
    } else if b.destinations@.len() == 0 {
        head.plus(
            seq![
                run(
                    "    (none yet — add some from the actions pane)"@,
                    in_italics(theme::TEXT_DIM),
                ),
            ],
        )
    } else {
        with_dests(head, b, known, facts, b.destinations@.len() as int)
    }
}

fn push_group(rows: &mut Rows, g: &Group, open: bool)
    ensures
        final(rows)@ == ({
            let head = old(rows)@.plus_stop(group_head_view(g@, open));
            if open {
                with_files(head, g@.files, g@.files.len() as int)
            } else {
                head
            }
        }),
{
    let label = if g.folder.bytes.len() == 0 {
        "(source root)".to_owned()
    } else {
        text::concat(g.folder.display().as_str(), "/")
    };
    rows.push_stop(
        line3(
            colored(text::concat3("      ", caret(open), " ").as_str(), theme::TEXT_DIM),
            bold(label.as_str(), theme::AMBER),
            colored(
                text::concat3("  (", text::decimal_usize(g.files.len()).as_str(), ")").as_str(),
                theme::TEXT_DIM,
            ),
        ),
    );
    if open {
        let ghost head = rows@;
        for j in 0..g.files.len()
            invariant
                rows@ == with_files(head, g@.files, j as int),
        {
            let f = &g.files[j];
            assert(g@.files[j as int] == f@);
            rows.push(
                line3(
                    colored(
                        text::concat("          ", f.name.display().as_str()).as_str(),
                        theme::AMBER,
                    ),
                    colored("  →  ", theme::TEXT_DIM),
                    colored(f.rel.display().as_str(), theme::COPY),
                ),
            );
        }
    }
}

fn push_open(rows: &mut Rows, b: &Browser, resolver: &Resolver, facts: &InfoFacts, i: usize)
    requires
        i < b.destinations@.len(),
        target_count(links(b.mappings@)) <= usize::MAX,
    ensures
        final(rows)@ == with_open(old(rows)@, *b, resolver.known@, *facts, i as int),
{
    let d = &b.destinations[i];
    let root = resolver.canonical(d);
    rows.push(
        folder_stat_line(Some(facts.open_stats), b.dest_mapped(d, resolver), "      "),
    );
    let groups = group_mappings(&b.mappings, &root);
    let ghost model = grouped(links(b.mappings@), root@);
    assert(model.len() == groups@.len());
    if groups.len() == 0 {
        rows.push(
            line1(italic("      (no files mapped into this folder yet)", theme::TEXT_DIM)),
        );
    } else {
        let ghost before = rows@;
        for k in 0..groups.len()
            invariant
                model == groups_view(groups@),
                rows@ == with_groups(before, model, b.info_folder_expanded, k as int),
        {
            assert(model[k as int] == groups@[k as int]@);
            push_group(rows, &groups[k], b.info_folder_expanded == Some(k));
        }
    }
}

fn source_line(b: &Browser) -> (res: Line)
    ensures
        res@ == source_line_view(*b),
{
    match &b.source {
        Some(src) => line2(
            bold("Source  ", theme::GOLD),
            colored(src.display().as_str(), theme::AMBER),
        ),
        None => line2(
            bold("Source  ", theme::GOLD),
            italic("(not chosen yet)", theme::TEXT_DIM),
        ),
    }
}

fn source_stat_line(b: &Browser, facts: &InfoFacts) -> (res: Line)
    ensures
        res@ == source_stat_view(*b, *facts),
{
    if b.source.is_some() {
        folder_stat_line(Some(facts.source_stats), b.source_mapped(&facts.is_file), "    ")
    } else {
        folder_stat_line(None, 0, "    ")
    }
}

fn source_rows(b: &Browser, facts: &InfoFacts) -> (res: Rows)
    ensures
        res@ == source_view(*b, *facts),
{
    let mut rows = Rows::new();
    if let Some(last) = &b.last_run {
        rows.push(
            line2(bold("Last run  ", theme::GOLD), colored(last.as_str(), theme::SUCCESS)),
        );
        rows.push(view::blank());
    }
    rows.push(source_line(b));
    rows.push(source_stat_line(b, facts));
    rows.push(view::blank());
    rows
}

/// The rows of the info pane: the result of the last run, the source in numbers, and the
/// accordion of the destinations.
pub fn info_rows(b: &Browser, resolver: &Resolver, facts: &InfoFacts) -> (res: Rows)
    requires
        target_count(links(b.mappings@)) <= usize::MAX,
    ensures
        res@ == info_view(*b, resolver.known@, *facts),
{
    let mut rows = source_rows(b, facts);
    let mut head = caret(b.info_dest_list_open).to_owned();
    head.append(" Destination Folders (");
    head.append(text::decimal_usize(b.destinations.len()).as_str());
    head.append(")");
    rows.push_stop(line1(bold(head.as_str(), theme::GOLD)));
    if b.info_dest_list_open {
        if b.destinations.len() == 0 {
            rows.push(
                line1(
                    italic("    (none yet — add some from the actions pane)", theme::TEXT_DIM),
                ),
            );
        } else {
            let ghost before = rows@;
            for i in 0..b.destinations.len()
                invariant
                    target_count(links(b.mappings@)) <= usize::MAX,
                    rows@ == with_dests(before, *b, resolver.known@, *facts, i as int),
            {
                let open = b.info_dest_expanded == Some(i);
                rows.push_stop(
                    line2(
                        colored(text::concat3("  ", caret(open), " ").as_str(), theme::TEXT_DIM),
                        colored(b.destinations[i].display().as_str(), theme::COPY),
                    ),
                );
                if open {
                    push_open(&mut rows, b, resolver, facts, i);
                }
            }
        }
    }
    rows
}

// --- Folder browser --------------------------------------------------------

/// The note in place of an empty listing.
pub open spec fn empty_note(b: Browser) -> Seq<char> {
    if b.mode == Mode::Browsing(PickTarget::Destination) {
        "(no subfolders here — Space selects this folder, r jumps to the launch folder, ← goes up)"@
    } else {
        "(no subfolders here — Space picks this folder, r jumps to the launch folder, ← goes up)"@
    }
}

/// The note in place of an empty listing.
pub fn empty_listing(b: &Browser) -> (res: &'static str)
    ensures
        res@ == empty_note(*b),
{
    if b.mode == Mode::Browsing(PickTarget::Destination) {
        "(no subfolders here — Space selects this folder, r jumps to the launch folder, ← goes up)"
    } else {
        "(no subfolders here — Space picks this folder, r jumps to the launch folder, ← goes up)"
    }
}

/// The tag of a folder that cannot be a destination.
pub open spec fn conflict_tag(why: Conflict) -> Seq<char> {
    match why {
        Conflict::IsSource => "  ✗ source folder"@,
        Conflict::Inside => "  ✗ inside the source"@,
        Conflict::Contains => "  ✗ contains the source"@,
    }
}

/// The line of a listed folder.
pub open spec fn entry_view(b: Browser, known: Seq<Place>, i: int) -> Seq<Run> {
    let p = b.entries@[i]@;
    let picking = b.mode == Mode::Browsing(PickTarget::Destination);
    let blocked = if picking {
        pick_conflict(b, known, p)
    } else {
        None
    };
    let chosen = picking && find_path(
        crate::path::path_bytes(b.destinations@),
        canonical_of(known, p),
    ) is Some;
    let name = seq![
        run(
            folder_label(p),
            in_color(
                if blocked is Some {
                    theme::TEXT_DIM
                } else {
                    theme::TEXT
                },
            ),
        ),
        run("/"@, in_color(theme::TEXT_DIM)),
    ];
    let tagged = match blocked {
        Some(why) => name.push(run(conflict_tag(why), in_italics(theme::TEXT_DIM))),
        None => if chosen {
            name.push(run("  ✓ selected"@, in_bold(theme::COPY)))
        } else {
            name
        },
    };
    if b.browse_sel == Some(i as usize) {
        tagged.push(
            run(
                if blocked is Some {
                    "   can't be a destination · Enter/→ to open"@
                } else if picking {
                    if chosen {
                        "   Space to deselect · Enter/→ to open"@
                    } else {
                        "   Space to select · Enter/→ to open"@
                    }
                } else {
                    "   Space to choose · Enter/→ to open"@
                },
                in_color(theme::TEXT_DIM),
            ),
        )
    } else {
        tagged
    }
}

fn entry_line(b: &Browser, resolver: &Resolver, i: usize) -> (res: Line)
    requires
        i < b.entries@.len(),
    ensures
        res@ == entry_view(*b, resolver.known@, i as int),
{
    let p = &b.entries[i];
    let picking = b.mode == Mode::Browsing(PickTarget::Destination);
    let blocked = if picking {
        b.dest_conflict(p, resolver)
    } else {
        None
    };
    let chosen = picking && b.is_destination(p, resolver);
    let name = folder_name(p);
    let color = if blocked.is_some() {
        theme::TEXT_DIM
    } else {
        theme::TEXT
    };
    let mut line = line2(colored(name.as_str(), color), colored("/", theme::TEXT_DIM));
    match blocked {
        Some(why) => {
            let tag = match why {
                Conflict::IsSource => "  ✗ source folder",
                Conflict::Inside => "  ✗ inside the source",
                Conflict::Contains => "  ✗ contains the source",
            };
            line.push(italic(tag, theme::TEXT_DIM));
        },
        None => {
            if chosen {
                line.push(bold("  ✓ selected", theme::COPY));
            }
        },
    }
    if b.browse_sel == Some(i) {
        let hint = if blocked.is_some() {
            "   can't be a destination · Enter/→ to open"
        } else if picking {
            if chosen {
                "   Space to deselect · Enter/→ to open"
            } else {
                "   Space to select · Enter/→ to open"
            }
        } else {
            "   Space to choose · Enter/→ to open"
        };
        line.push(colored(hint, theme::TEXT_DIM));
    }
    line
}

/// The lines of the folder browser, one for each subfolder. Folders that cannot be a
/// destination are grayed out.
pub fn modal_lines(b: &Browser, resolver: &Resolver) -> (res: Lines)
    ensures
        res@ == Seq::new(b.entries@.len(), |i: int| entry_view(*b, resolver.known@, i)),
{
    let ghost all = Seq::new(b.entries@.len(), |i: int| entry_view(*b, resolver.known@, i));
    let mut lines = Lines::new();
    for i in 0..b.entries.len()
        invariant
            all == Seq::new(b.entries@.len(), |i: int| entry_view(*b, resolver.known@, i)),
            lines@ == all.take(i as int),
    {
        lines.push(entry_line(b, resolver, i));
        assert(all.take(i + 1) =~= all.take(i as int).push(all[i as int]));
    }
    assert(all.take(b.entries@.len() as int) =~= all);
    lines
}

/// The title of the folder browser: the folder that is listed.
pub fn modal_title(b: &Browser) -> (res: String)
    ensures
        res@ == " "@ + lossy_text(b.cwd@) + " "@,
{
    text::concat3(" ", b.cwd.display().as_str(), " ")
}

// --- Overlays --------------------------------------------------------------

/// A line that explains a key.
pub open spec fn key_view(key: Seq<char>, what: Seq<char>) -> Seq<Run> {
    seq![
        run("  "@ + pad_right(key, 16), in_bold(theme::GOLD)),
        run(what, in_color(theme::TEXT)),
    ]
}

/// The title of a group of keys.
pub open spec fn section_view(title: Seq<char>) -> Seq<Run> {
    seq![run(title, in_bold(theme::HEADER))]
}

fn key_line(key: &str, what: &str) -> (res: Line)
    ensures
        res@ == key_view(key@, what@),
{
    let padded = text::concat("  ", text::padded_right(key, 16).as_str());
    line2(bold(padded.as_str(), theme::GOLD), colored(what, theme::TEXT))
}

fn section(title: &str) -> (res: Line)
    ensures
        res@ == section_view(title@),
{
    line1(bold(title, theme::HEADER))
}

/// The keys of the actions pane and the folder browser.
pub open spec fn help_top() -> Seq<Seq<Run>> {
    seq![
        blank_line(),
        section_view("  Actions pane"@),
        key_view("↑ / ↓"@, "choose an action"@),
        key_view("Enter"@, "open the folder browser / run Sync now"@),
        key_view("s / a"@, "jump straight to source / destination"@),
        key_view("c"@, "Sync now (mirror source → destinations)"@),
        key_view("m"@, "Map files (source file → destination file, with a banner)"@),
        key_view("b"@, "Backup now (encrypted backup of the source)"@),
        blank_line(),
        section_view("  Folder browser"@),
        key_view("↑ / ↓  j / k"@, "move the selection"@),
        key_view("→ / l / Enter"@, "open (descend into) the highlighted folder"@),
        key_view("← / Bksp / h"@, "go up to the parent folder"@),
        key_view("r"@, "jump back to the launch folder"@),
        key_view("Space (source)"@, "pick the highlighted folder and return"@),
        key_view("Space (dest.)"@, "select / deselect (Space again) — multi-pick"@),
        key_view("Esc / q"@, "finish / cancel and go back"@),
    ]
}

/// The keys of the info pane, and those that work anywhere.
pub open spec fn help_bottom() -> Seq<Seq<Run>> {
    seq![
        blank_line(),
        section_view("  Info pane"@),
        key_view("(source)"@, "its size, file & mapped counts sit up top"@),
        key_view("↑ / ↓"@, "move between the Destinations header and folders"@),
        key_view(
            "Enter / →"@,
            "reveal the list / expand a folder, then a source-folder group (one open per level)"@,
        ),
        key_view(
            "Backspace / ←"@,
            "collapse the open group, then the folder, then the list"@,
        ),
        blank_line(),
        section_view("  Anywhere"@),
        key_view("Tab"@, "switch focus between actions and info"@),
        key_view("Ctrl+Q"@, "toggle this overlay"@),
        key_view("q / Esc"@, "close bukagu (asks you to confirm; edits are kept)"@),
        blank_line(),
        seq![run("  Press any key to close."@, in_italics(theme::TEXT_DIM))],
    ]
}

fn help_first() -> (res: Lines)
    ensures
        res@ == help_top(),
{
    let mut lines = Lines::new();
    lines.push(view::blank());
    lines.push(section("  Actions pane"));
    lines.push(key_line("↑ / ↓", "choose an action"));
    lines.push(key_line("Enter", "open the folder browser / run Sync now"));
    lines.push(key_line("s / a", "jump straight to source / destination"));
    lines.push(key_line("c", "Sync now (mirror source → destinations)"));
    lines.push(key_line("m", "Map files (source file → destination file, with a banner)"));
    lines.push(key_line("b", "Backup now (encrypted backup of the source)"));
    lines.push(view::blank());
    lines.push(section("  Folder browser"));
    lines.push(key_line("↑ / ↓  j / k", "move the selection"));
    lines.push(key_line("→ / l / Enter", "open (descend into) the highlighted folder"));
    lines.push(key_line("← / Bksp / h", "go up to the parent folder"));
    lines.push(key_line("r", "jump back to the launch folder"));
    lines.push(key_line("Space (source)", "pick the highlighted folder and return"));
    lines.push(key_line("Space (dest.)", "select / deselect (Space again) — multi-pick"));
    lines.push(key_line("Esc / q", "finish / cancel and go back"));
    assert(lines@ =~= help_top());
    lines
}

fn help_second() -> (res: Lines)
    ensures
        res@ == help_bottom(),
{
    let mut lines = Lines::new();
    lines.push(view::blank());
    lines.push(section("  Info pane"));
    lines.push(key_line("(source)", "its size, file & mapped counts sit up top"));
    lines.push(key_line("↑ / ↓", "move between the Destinations header and folders"));
    lines.push(
        key_line(
            "Enter / →",
            "reveal the list / expand a folder, then a source-folder group (one open per level)",
        ),
    );
    lines.push(
        key_line("Backspace / ←", "collapse the open group, then the folder, then the list"),
    );
    lines.push(view::blank());
    lines.push(section("  Anywhere"));
    lines.push(key_line("Tab", "switch focus between actions and info"));
    lines.push(key_line("Ctrl+Q", "toggle this overlay"));
    lines.push(key_line("q / Esc", "close bukagu (asks you to confirm; edits are kept)"));
    lines.push(view::blank());
    lines.push(line1(italic("  Press any key to close.", theme::TEXT_DIM)));
    assert(lines@ =~= help_bottom());
    lines
}

/// The lines of the shortcuts overlay.
pub fn help_lines() -> (res: Lines)
    ensures
        res@ == help_top() + help_bottom(),
{
    let mut lines = help_first();
    lines.append(help_second());
    lines
}

/// What the quit dialog asks.
pub fn quit_question() -> (res: &'static str)
    ensures
        res@ == "Do you really want to close Bukagu?"@,
{
    "Do you really want to close Bukagu?"
}

/// A button of a dialog.
pub open spec fn button_view(label: Seq<char>, focused: bool) -> Run {
    run(
        "  "@ + label + "  "@,
        if focused {
            in_bold_on(theme::BG, theme::SELECTION)
        } else {
            in_color(theme::TEXT_DIM)
        },
    )
}

/// A button of a dialog.
pub fn quit_button(label: &str, focused: bool) -> (res: Span)
    ensures
        res@ == button_view(label@, focused),
{
    let padded = text::concat3("  ", label, "  ");
    if focused {
        bold_on(padded.as_str(), theme::BG, theme::SELECTION)
    } else {
        colored(padded.as_str(), theme::TEXT_DIM)
    }
}

/// The buttons of the quit dialog.
pub fn quit_buttons(choice: QuitChoice) -> (res: Line)
    ensures
        res@ == seq![
            button_view("Confirm"@, choice == QuitChoice::Confirm),
            run("      "@, unstyled()),
            button_view("Cancel"@, choice == QuitChoice::Cancel),
        ],
{
    line3(
        quit_button("Confirm", choice == QuitChoice::Confirm),
        view::raw("      "),
        quit_button("Cancel", choice == QuitChoice::Cancel),
    )
}

// --- Laws ------------------------------------------------------------------

proof fn lemma_files_stops(rows: RowsModel, files: Seq<FileModel>, n: int)
    ensures
        with_files(rows, files, n).stops == rows.stops,
    decreases n,
{
    if n > 0 {
        lemma_files_stops(rows, files, n - 1);
    }
}

proof fn lemma_groups_stops(rows: RowsModel, groups: Seq<GroupModel>, open: Option<usize>, n: int)
    requires
        0 <= n <= groups.len(),
    ensures
        with_groups(rows, groups, open, n).stops.len() == rows.stops.len() + n,
    decreases n,
{
    if n > 0 {
        lemma_groups_stops(rows, groups, open, n - 1);
        let g = groups[n - 1];
        let head = with_groups(rows, groups, open, n - 1).plus_stop(
            group_head_view(g, open == Some((n - 1) as usize)),
        );
        lemma_files_stops(head, g.files, g.files.len() as int);
    }
}

proof fn lemma_dests_stops(
    rows: RowsModel,
    b: Browser,
    known: Seq<Place>,
    facts: InfoFacts,
    n: int,
)
    requires
        0 <= n <= b.destinations@.len(),
    ensures
        with_dests(rows, b, known, facts, n).stops.len() == rows.stops.len() + dest_targets(
            b,
            known,
            n,
        ).len(),
    decreases n,
{
    if n > 0 {
        lemma_dests_stops(rows, b, known, facts, n - 1);
        let open = b.info_dest_expanded == Some((n - 1) as usize);
        if open {
            let root = canonical_of(known, b.destinations@[n - 1]@);
            let groups = grouped(links(b.mappings@), root);
            let head = with_dests(rows, b, known, facts, n - 1).plus_stop(
                seq![
                    run("  "@ + caret_text(open) + " "@, in_color(theme::TEXT_DIM)),
                    run(lossy_text(b.destinations@[n - 1]@), in_color(theme::COPY)),
                ],
            );
            let stats = head.plus(
                stat_view(
                    Some(facts.open_stats),
                    mapped_below(links(b.mappings@), root),
                    "      "@,
                ),
            );
            lemma_groups_stops(stats, groups, b.info_folder_expanded, groups.len() as int);
        }
    }
}

/// The info pane has as many lines that can be selected as there are rows to move
/// between.
pub proof fn law_rows_match_targets(b: Browser, known: Seq<Place>, facts: InfoFacts)
    ensures
        info_view(b, known, facts).stops.len() == targets_of(b, known).len(),
{
    let head = source_view(b, facts).plus_stop(
        seq![
            run(
                caret_text(b.info_dest_list_open) + " Destination Folders ("@ + decimal(
                    b.destinations@.len(),
                ) + ")"@,
                in_bold(theme::GOLD),
            ),
        ],
    );
    assert(head.stops.len() == 1);
    if b.info_dest_list_open {
        lemma_dests_stops(head, b, known, facts, b.destinations@.len() as int);
    }
}

/// The destination picker marks folders for what they are: one that overlaps the source
/// with a word that says how, in place of any other; one that is a destination as
/// selected; and no other.
pub proof fn law_the_picker_marks_folders(b: Browser, known: Seq<Place>, i: int)
    requires
        0 <= i < b.entries@.len(),
        b.mode == Mode::Browsing(PickTarget::Destination),
        b.source is Some,
        b.browse_sel is None,
    ensures
        ({
            let at = canonical_of(known, b.entries@[i]@);
            let src = b.source->0@;
            let overlaps = components(src).is_prefix_of(components(at)) || components(
                at,
            ).is_prefix_of(components(src));
            let chosen = exists|k: int|
                0 <= k < b.destinations@.len() && same_path((#[trigger] b.destinations@[k])@, at);
            let line = entry_view(b, known, i);
            &&& line[0].text == folder_label(b.entries@[i]@)
            &&& overlaps || chosen <==> line.len() == 3
            &&& overlaps ==> line[2].text == "  ✗ source folder"@ || line[2].text
                == "  ✗ inside the source"@ || line[2].text == "  ✗ contains the source"@
            &&& !overlaps && chosen ==> line[2].text == "  ✓ selected"@
        }),
{
    let at = canonical_of(known, b.entries@[i]@);
    let all = crate::path::path_bytes(b.destinations@);
    law_conflicts_are_overlaps(at, b.source->0@);
    lemma_find_path(all, at);
    if find_path(all, at) is Some {
        let k = find_path(all, at)->0;
        assert(same_path(b.destinations@[k]@, at));
    } else {
        assert forall|k: int| 0 <= k < b.destinations@.len() implies !same_path(
            (#[trigger] b.destinations@[k])@,
            at,
        ) by {
            assert(all[k] == b.destinations@[k]@);
        }
    }
}

/// An open group shows every one of its files, in order, below its line.
pub proof fn law_open_groups_show_their_files(rows: RowsModel, files: Seq<FileModel>, n: int)
    requires
        0 <= n <= files.len(),
    ensures
        with_files(rows, files, n).lines == rows.lines + Seq::new(
            n as nat,
            |i: int| mapped_file_view(files[i]),
        ),
        with_files(rows, files, n).stops == rows.stops,
    decreases n,
{
    if n > 0 {
        law_open_groups_show_their_files(rows, files, n - 1);
        let f = |i: int| mapped_file_view(files[i]);
        assert(Seq::new(n as nat, f) =~= Seq::new((n - 1) as nat, f).push(f(n - 1)));
        assert((rows.lines + Seq::new((n - 1) as nat, f)).push(f(n - 1)) =~= rows.lines
            + Seq::new(n as nat, f));
    } else {
        assert(rows.lines + Seq::new(0, |i: int| mapped_file_view(files[i])) =~= rows.lines);
    }
}

} // verus!
