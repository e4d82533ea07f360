//! The file-mapping screen: pick a source file and destination files of the same type,
//! save them as a mapping, review what a sync would do, and sync.

use vstd::prelude::*;
use vstd::string::*;

use crate::app::RunOptions;
use crate::clock;
use crate::engine::mapping::{
    self, bytes_held, copy_bytes, count, flaws, is_blocking_flaw, is_written,
    law_plans_have_a_row_for_each_target, law_states_tell_what_differs, loaded_view, located_view,
    planned_targets, rendered, tallies, targets_before, targets_view, validate, validated,
    written_bytes, Holding, Issue, Loaded, LoadedMapping, LoadedTarget, Located, LocatedMapping,
    MappingPlan, MappingStats, Target, TargetPlan, TargetState,
};
use crate::engine::scan::{without_links, Found};
use crate::path::{
    components, extension_text_of, is_sorted_form, joined, lemma_key_order, lemma_key_order_transitive,
    path_bytes, path_order, same_path, sort_paths,
    stripped, Order, PathBuf,
};
use crate::resolve::{bytes_in, canonical_of, Place, PlaceModel, Resolver};
use crate::store::{chars_in, copy_paths, is_timestamp, links, Config, Link, Mapping};
use crate::text::{self, ascii_lower, decimal, lossy_text};
use crate::ui::browser::{find_path, position_of, target_count};
use crate::ui::keys::Key;
use crate::ui::widgets::{bytes_text, folder_label, folder_name, human_bytes};

verus! {

/// What the mapping screen hands back.
#[derive(Debug)]
pub struct MapSession {
    pub mappings: Vec<Mapping>,
    /// Whether a sync wrote files.
    pub synced: bool,
    /// A one-line summary, empty if there was no sync.
    pub summary: String,
}

/// Which screen the mapping flow is on.
#[derive(Debug, Clone, Copy, PartialEq, Eq, Structural)]
pub enum Screen {
    /// The page with the two panes and the accordion.
    Page,
    /// What a sync would do.
    Summary,
    /// A sync or a dry run finished.
    Done,
    /// A sync failed.
    Error,
}

/// Which pane has focus.
#[derive(Debug, Clone, Copy, PartialEq, Eq, Structural)]
pub enum Pane {
    Sources,
    Destinations,
    Info,
}

impl Pane {
    /// The pane that comes next.
    pub open spec fn following(self) -> Pane {
        match self {
            Pane::Sources => Pane::Destinations,
            Pane::Destinations => Pane::Info,
            Pane::Info => Pane::Sources,
        }
    }

    /// The pane that comes before.
    pub open spec fn preceding(self) -> Pane {
        match self {
            Pane::Sources => Pane::Info,
            Pane::Destinations => Pane::Sources,
            Pane::Info => Pane::Destinations,
        }
    }

    /// The pane that comes next.
    pub fn next(self) -> (res: Pane)
        ensures
            res == self.following(),
    {
        match self {
            Pane::Sources => Pane::Destinations,
            Pane::Destinations => Pane::Info,
            Pane::Info => Pane::Sources,
        }
    }

    /// The pane that comes before.
    pub fn prev(self) -> (res: Pane)
        ensures
            res == self.preceding(),
    {
        match self {
            Pane::Sources => Pane::Info,
            Pane::Destinations => Pane::Sources,
            Pane::Info => Pane::Destinations,
        }
    }
}

/// Which destination files the right pane shows.
#[derive(Debug, Clone, Copy, PartialEq, Eq, Structural)]
pub enum DestView {
    /// Files that are not mapped yet.
    Available,
    /// Files that are mapped.
    Assigned,
}

/// Which button of the exit dialog has focus.
#[derive(Debug, Clone, Copy, PartialEq, Eq, Structural)]
pub enum ExitChoice {
    Confirm,
    Cancel,
}

impl ExitChoice {
    /// The other button.
    pub open spec fn other(self) -> ExitChoice {
        match self {
            ExitChoice::Confirm => ExitChoice::Cancel,
            ExitChoice::Cancel => ExitChoice::Confirm,
        }
    }

    /// The other button.
    pub fn toggle(self) -> (res: ExitChoice)
        ensures
            res == self.other(),
    {
        match self {
            ExitChoice::Confirm => ExitChoice::Cancel,
            ExitChoice::Cancel => ExitChoice::Confirm,
        }
    }
}

// --- Files -----------------------------------------------------------------

/// A file below a folder, and its size.
#[derive(Debug)]
pub struct FileSize {
    pub rel: PathBuf,
    pub size: u64,
}

/// What a [`FileSize`] says.
pub struct FileInfo {
    pub rel: Seq<u8>,
    pub size: u64,
}

impl View for FileSize {
    type V = FileInfo;

    open spec fn view(&self) -> FileInfo {
        FileInfo { rel: self.rel@, size: self.size }
    }
}

/// What the files of a list say.
pub open spec fn sizes(s: Seq<FileSize>) -> Seq<FileInfo> {
    s.map_values(|f: FileSize| f@)
}

/// `files`, in order, with one more; after those at the same location.
pub open spec fn with_sized(files: Seq<FileInfo>, f: FileInfo) -> Seq<FileInfo>
    decreases files.len(),
{
    if files.len() == 0 || path_order(files.last().rel, f.rel) != Order::Greater {
        files.push(f)
    } else {
        with_sized(files.drop_last(), f).push(files.last())
    }
}

/// The regular files met below a folder, links left out, in order of location.
pub open spec fn files_below(root: Seq<u8>, found: Seq<Found>) -> Seq<FileInfo>
    decreases found.len(),
{
    if found.len() == 0 {
        Seq::empty()
    } else {
        let rest = files_below(root, found.drop_last());
        let f = found.last();
        match stripped(f.path@, root) {
            Some(rel) => if f.is_symlink || !f.is_file {
                rest
            } else {
                with_sized(rest, FileInfo { rel, size: f.len })
            },
            None => rest,
        }
    }
}

fn insert_sized(files: &mut Vec<FileSize>, f: FileSize)
    ensures
        sizes(final(files)@) == with_sized(sizes(old(files)@), f@),
{
    let ghost all = sizes(files@);
    let mut i: usize = files.len();
    assert(all.take(i as int) =~= all);
    assert(with_sized(all, f@) + all.skip(i as int) =~= with_sized(all, f@));
    while i > 0 && files[i - 1].rel.order(&f.rel) == Order::Greater
        invariant
            i <= files@.len(),
            *files == *old(files),
            all == sizes(files@),
            with_sized(all, f@) == with_sized(all.take(i as int), f@) + all.skip(i as int),
        ensures
            i <= files@.len(),
            *files == *old(files),
            all == sizes(files@),
            with_sized(all, f@) == with_sized(all.take(i as int), f@) + all.skip(i as int),
            i == 0 || path_order(all[i - 1].rel, f@.rel) != Order::Greater,
        decreases i,
    {
        proof {
            let front = all.take(i as int);
            assert(front.last() == files@[i - 1]@);
            assert(front.drop_last() =~= all.take(i - 1));
            assert(all.skip(i - 1) =~= seq![front.last()] + all.skip(i as int));
            assert(with_sized(front, f@) + all.skip(i as int) =~= with_sized(all.take(i - 1), f@)
                + all.skip(i - 1));
        }
        i -= 1;
    }
    proof {
        let front = all.take(i as int);
        if i > 0 {
            assert(front.last() == all[i - 1]);
        }
        assert(with_sized(front, f@) == front.push(f@));
        assert(sizes(files@.insert(i as int, f)) =~= front.push(f@) + all.skip(i as int));
    }
    files.insert(i, f);
}

/// The regular files met below `root`, links left out, in order of location.
pub fn scan_files(root: &PathBuf, found: &Vec<Found>) -> (res: Vec<FileSize>)
    ensures
        sizes(res@) == files_below(root@, found@),
{
    let mut out: Vec<FileSize> = Vec::new();
    assert(sizes(out@) =~= Seq::empty());
    for i in 0..found.len()
        invariant
            sizes(out@) == files_below(root@, found@.take(i as int)),
    {
        let f = &found[i];
        proof {
            assert(found@.take(i + 1).drop_last() =~= found@.take(i as int));
            assert(found@.take(i + 1).last() == found@[i as int]);
        }
        if let Some(rel) = f.path.strip_prefix(root) {
            if !f.is_symlink && f.is_file {
                insert_sized(&mut out, FileSize { rel, size: f.len });
            }
        }
    }
    assert(found@.take(found@.len() as int) =~= found@);
    out
}

/// A destination file.
#[derive(Debug)]
pub struct DestFile {
    /// The destination folder that it lies in.
    pub root_idx: usize,
    /// Its absolute path, which a mapping names as its target.
    pub abs: PathBuf,
    /// Its path below the destination folder.
    pub rel: PathBuf,
    pub size: u64,
}

/// What a [`DestFile`] says.
pub struct DestModel {
    pub root_idx: usize,
    pub abs: Seq<u8>,
    pub rel: Seq<u8>,
    pub size: u64,
}

impl View for DestFile {
    type V = DestModel;

    open spec fn view(&self) -> DestModel {
        DestModel { root_idx: self.root_idx, abs: self.abs@, rel: self.rel@, size: self.size }
    }
}

/// What the destination files of a list say.
pub open spec fn dest_view_of(s: Seq<DestFile>) -> Seq<DestModel> {
    s.map_values(|f: DestFile| f@)
}

/// The files of one destination folder.
pub open spec fn dest_files_in(root: Seq<u8>, i: int, files: Seq<FileInfo>) -> Seq<DestModel> {
    files.map_values(
        |f: FileInfo|
            DestModel { root_idx: i as usize, abs: joined(root, f.rel), rel: f.rel, size: f.size },
    )
}

/// The files of the first `n` destination folders.
pub open spec fn all_dest_files(roots: Seq<PathBuf>, files: Seq<Vec<FileSize>>, n: int) -> Seq<
    DestModel,
>
    decreases n,
{
    if n <= 0 {
        Seq::empty()
    } else {
        all_dest_files(roots, files, n - 1) + dest_files_in(
            roots[n - 1]@,
            n - 1,
            sizes(files[n - 1]@),
        )
    }
}

fn list_dest_files(roots: &Vec<PathBuf>, files: &Vec<Vec<FileSize>>) -> (res: Vec<DestFile>)
    requires
        files@.len() == roots@.len(),
    ensures
        dest_view_of(res@) == all_dest_files(roots@, files@, roots@.len() as int),
{
    let mut out: Vec<DestFile> = Vec::new();
    assert(dest_view_of(out@) =~= Seq::empty());
    for i in 0..roots.len()
        invariant
            files@.len() == roots@.len(),
            dest_view_of(out@) == all_dest_files(roots@, files@, i as int),
    {
        let ghost before = dest_view_of(out@);
        let ghost mine = dest_files_in(roots@[i as int]@, i as int, sizes(files@[i as int]@));
        assert(before + mine.take(0) =~= before);
        let count: usize = files[i].len();
        for j in 0..count
            invariant
                i < roots@.len(),
                files@.len() == roots@.len(),
                count == files@[i as int]@.len(),
                mine == dest_files_in(roots@[i as int]@, i as int, sizes(files@[i as int]@)),
                dest_view_of(out@) == before + mine.take(j as int),
        {
            let f = &files[i][j];
            let d = DestFile {
                root_idx: i,
                abs: roots[i].join(&f.rel),
                rel: f.rel.clone(),
                size: f.size,
            };
            proof {
                assert(sizes(files@[i as int]@)[j as int] == f@);
                assert(mine[j as int] == d@);
                assert(dest_view_of(out@.push(d)) =~= dest_view_of(out@).push(d@));
                assert(before + mine.take(j + 1) =~= (before + mine.take(j as int)).push(d@));
            }
            out.push(d);
        }
        assert(mine.take(files@[i as int]@.len() as int) =~= mine);
    }
    out
}

/// The extension of a path in lowercase; empty where it has none.
pub open spec fn ext_of(p: Seq<u8>) -> Seq<char> {
    ascii_lower(extension_text_of(p))
}

/// What an extension is called.
pub open spec fn ext_label(ext: Seq<char>) -> Seq<char> {
    if ext.len() == 0 {
        "no extension"@
    } else {
        "."@ + ext
    }
}

fn find_ext(p: &PathBuf) -> (res: String)
    ensures
        res@ == ext_of(p@),
{
    text::to_ascii_lower(p.extension_text().as_str())
}

fn label_ext(ext: &str) -> (res: String)
    ensures
        res@ == ext_label(ext@),
{
    if ext.unicode_len() == 0 {
        "no extension".to_owned()
    } else {
        text::concat(".", ext)
    }
}

// --- Editing ---------------------------------------------------------------

/// Whether a mapping has this target.
pub open spec fn is_mapped(maps: Seq<Link>, target: Seq<u8>) -> bool {
    exists|i: int| 0 <= i < maps.len() && find_path(#[trigger] maps[i].targets, target) is Some
}

/// The position of the mapping of a source, or nothing.
pub open spec fn find_source(maps: Seq<Link>, source: Seq<u8>) -> Option<int>
    decreases maps.len(),
{
    if maps.len() == 0 {
        None
    } else {
        match find_source(maps.drop_last(), source) {
            Some(i) => Some(i),
            None => if same_path(maps.last().source_rel, source) {
                Some(maps.len() - 1)
            } else {
                None
            },
        }
    }
}

/// Why a target is refused for a source, if it is.
pub open spec fn target_refusal(maps: Seq<Link>, source: Seq<u8>, target: Seq<u8>) -> Option<
    Seq<char>,
> {
    let se = ext_of(source);
    let te = ext_of(target);
    if se != te {
        Some(
            lossy_text(target) + " has "@ + ext_label(te) + ", but the source "@ + lossy_text(
                source,
            ) + " has "@ + ext_label(se) + " — map files of the same type."@,
        )
    } else if is_mapped(maps, target) {
        Some(
            lossy_text(target)
                + " is already mapped — a destination file can't be a target twice."@,
        )
    } else {
        None
    }
}

/// Mappings with one more target for a source.
pub open spec fn with_target(maps: Seq<Link>, source: Seq<u8>, target: Seq<u8>) -> Seq<Link> {
    match find_source(maps, source) {
        Some(i) => maps.update(
            i,
            Link { source_rel: maps[i].source_rel, targets: maps[i].targets.push(target) },
        ),
        None => maps.push(Link { source_rel: source, targets: seq![target] }),
    }
}

/// Paths without a given one.
pub open spec fn without_path(paths: Seq<Seq<u8>>, p: Seq<u8>) -> Seq<Seq<u8>>
    decreases paths.len(),
{
    if paths.len() == 0 {
        Seq::empty()
    } else if same_path(paths.last(), p) {
        without_path(paths.drop_last(), p)
    } else {
        without_path(paths.drop_last(), p).push(paths.last())
    }
}

/// Mappings without a target; those that have none left are dropped.
pub open spec fn without_target(maps: Seq<Link>, target: Seq<u8>) -> Seq<Link>
    decreases maps.len(),
{
    if maps.len() == 0 {
        Seq::empty()
    } else {
        let m = maps.last();
        let rest = without_target(maps.drop_last(), target);
        let left = without_path(m.targets, target);
        if left.len() == 0 {
            rest
        } else {
            rest.push(Link { source_rel: m.source_rel, targets: left })
        }
    }
}

/// What came of saving a list of targets for a source.
pub struct Saved {
    pub maps: Seq<Link>,
    pub added: nat,
    pub skipped: nat,
    pub last_error: Option<Seq<char>>,
}

/// What comes of saving targets for a source, one after the other.
pub open spec fn saved(maps: Seq<Link>, source: Seq<u8>, targets: Seq<Seq<u8>>) -> Saved
    decreases targets.len(),
{
    if targets.len() == 0 {
        Saved { maps, added: 0, skipped: 0, last_error: None }
    } else {
        let s = saved(maps, source, targets.drop_last());
        match target_refusal(s.maps, source, targets.last()) {
            Some(why) => Saved { skipped: s.skipped + 1, last_error: Some(why), ..s },
            None => Saved {
                maps: with_target(s.maps, source, targets.last()),
                added: s.added + 1,
                ..s
            },
        }
    }
}

// --- State -----------------------------------------------------------------

/// A row of the available files.
#[derive(Debug, Clone, Copy, PartialEq, Eq, Structural)]
pub enum AvailRow {
    /// A destination folder.
    Folder(usize),
    /// One of its files.
    File(usize),
}

/// A mapped file and its source.
#[derive(Debug)]
pub struct Pair {
    pub source_rel: PathBuf,
    pub target: PathBuf,
}

/// What a [`Pair`] says.
pub struct PairModel {
    pub source_rel: Seq<u8>,
    pub target: Seq<u8>,
}

impl View for Pair {
    type V = PairModel;

    open spec fn view(&self) -> PairModel {
        PairModel { source_rel: self.source_rel@, target: self.target@ }
    }
}

/// What the pairs of a list say.
pub open spec fn pairs(s: Seq<Pair>) -> Seq<PairModel> {
    s.map_values(|p: Pair| p@)
}

/// What the screen needs to have done for it outside.
#[derive(Debug, Clone, Copy, PartialEq, Eq, Structural)]
pub enum MapEffect {
    Nothing,
    /// Read the folders again and hand over what is in them.
    Rescan,
    /// Find out about the sources and targets of the mappings.
    Review,
    /// Write the pending targets.
    Apply,
}

/// The mapping screen's state.
#[derive(Debug)]
pub struct MapApp {
    pub source: PathBuf,
    pub dest_roots: Vec<PathBuf>,
    pub opts: RunOptions,
    pub screen: Screen,
    pub mappings: Vec<Mapping>,
    /// Files below the source, relative to it.
    pub source_files: Vec<PathBuf>,
    pub dest_files: Vec<DestFile>,
    pub focus: Pane,
    pub dest_view: DestView,
    /// The destination folders that are open in the list of available files.
    pub dest_open: Vec<usize>,
    pub src_cursor: usize,
    pub dest_cursor: usize,
    pub info_cursor: usize,
    pub selected_source: Option<PathBuf>,
    /// The targets that wait to be saved.
    pub selected_targets: Vec<PathBuf>,
    /// The destination folder that is open in the accordion.
    pub info_expanded: Option<usize>,
    pub plan: Option<MappingPlan>,
    pub issues: Vec<Issue>,
    pub summary_scroll: usize,
    pub error_msg: Option<String>,
    pub synced: bool,
    pub synced_at: Option<String>,
    pub summary: String,
    /// The focused button of the exit dialog, while that is open.
    pub exit_prompt: Option<ExitChoice>,
    pub status: String,
    pub status_is_error: bool,
    pub done: bool,
}

/// Whether `after` is `before` with a new status.
pub open spec fn told(before: MapApp, after: MapApp, msg: Seq<char>, error: bool) -> bool {
    &&& after == (MapApp { status: after.status, status_is_error: error, ..before })
    &&& after.status@ == msg
}

// --- Derived lists ---------------------------------------------------------

/// Whether the `i`-th destination file is not mapped.
pub open spec fn is_available(a: MapApp, i: int) -> bool {
    !is_mapped(links(a.mappings@), a.dest_files@[i].abs@)
}

/// Which of the first `n` destination files are not mapped.
pub open spec fn available(a: MapApp, n: int) -> Seq<usize>
    decreases n,
{
    if n <= 0 {
        Seq::empty()
    } else if is_available(a, n - 1) {
        available(a, n - 1).push((n - 1) as usize)
    } else {
        available(a, n - 1)
    }
}

/// How many of the first `n` destination files lie in a folder and are not mapped.
pub open spec fn available_count(a: MapApp, root_idx: usize, n: int) -> nat
    decreases n,
{
    if n <= 0 {
        0
    } else {
        available_count(a, root_idx, n - 1) + (if a.dest_files@[n - 1].root_idx == root_idx
            && is_available(a, n - 1) {
            1nat
        } else {
            0
        })
    }
}

/// The rows for those of the first `n` destination files that lie in a folder and are
/// not mapped.
pub open spec fn file_rows(a: MapApp, root_idx: usize, n: int) -> Seq<AvailRow>
    decreases n,
{
    if n <= 0 {
        Seq::empty()
    } else if a.dest_files@[n - 1].root_idx == root_idx && is_available(a, n - 1) {
        file_rows(a, root_idx, n - 1).push(AvailRow::File((n - 1) as usize))
    } else {
        file_rows(a, root_idx, n - 1)
    }
}

/// The rows of the available files for the first `n` destination folders.
pub open spec fn avail_rows(a: MapApp, n: int) -> Seq<AvailRow>
    decreases n,
{
    if n <= 0 {
        Seq::empty()
    } else {
        let head = avail_rows(a, n - 1).push(AvailRow::Folder((n - 1) as usize));
        if a.dest_open@.contains((n - 1) as usize) {
            head + file_rows(a, (n - 1) as usize, a.dest_files@.len() as int)
        } else {
            head
        }
    }
}

/// `rows`, in order of target, with one more; after those with the same target.
pub open spec fn with_pair(rows: Seq<PairModel>, p: PairModel) -> Seq<PairModel>
    decreases rows.len(),
{
    if rows.len() == 0 || path_order(rows.last().target, p.target) != Order::Greater {
        rows.push(p)
    } else {
        with_pair(rows.drop_last(), p).push(rows.last())
    }
}

/// `rows` with the targets of a mapping.
pub open spec fn with_pairs(rows: Seq<PairModel>, source: Seq<u8>, targets: Seq<Seq<u8>>) -> Seq<
    PairModel,
>
    decreases targets.len(),
{
    if targets.len() == 0 {
        rows
    } else {
        with_pair(
            with_pairs(rows, source, targets.drop_last()),
            PairModel { source_rel: source, target: targets.last() },
        )
    }
}

/// Every mapped file with its source, in order of the files.
pub open spec fn assigned(maps: Seq<Link>) -> Seq<PairModel>
    decreases maps.len(),
{
    if maps.len() == 0 {
        Seq::empty()
    } else {
        with_pairs(assigned(maps.drop_last()), maps.last().source_rel, maps.last().targets)
    }
}

/// How many rows the destinations pane has.
pub open spec fn dest_rows(a: MapApp) -> nat {
    match a.dest_view {
        DestView::Available => avail_rows(a, a.dest_roots@.len() as int).len(),
        DestView::Assigned => assigned(links(a.mappings@)).len(),
    }
}

/// A cursor, held to the last of `n` rows.
pub open spec fn held(cursor: int, n: nat) -> usize {
    let last = if n > 0 {
        n - 1
    } else {
        0
    };
    (if cursor < last {
        cursor
    } else {
        last
    }) as usize
}

fn hold(cursor: usize, n: usize) -> (res: usize)
    ensures
        res == held(cursor as int, n as nat),
{
    let last: usize = if n > 0 {
        n - 1
    } else {
        0
    };
    if cursor < last {
        cursor
    } else {
        last
    }
}

/// A target as `folder/file`, where it lies in a destination folder.
pub open spec fn target_text(roots: Seq<PathBuf>, target: Seq<u8>, i: int) -> Seq<char>
    decreases roots.len() - i,
{
    if i < 0 || i >= roots.len() {
        lossy_text(target)
    } else {
        match stripped(target, roots[i]@) {
            Some(rel) => folder_label(roots[i]@) + "/"@ + lossy_text(rel),
            None => target_text(roots, target, i + 1),
        }
    }
}

/// Whether a mapping has this target.
pub fn mapped_anywhere(maps: &Vec<Mapping>, target: &PathBuf) -> (res: bool)
    ensures
        res == is_mapped(links(maps@), target@),
{
    let ghost all = links(maps@);
    for i in 0..maps.len()
        invariant
            all == links(maps@),
            forall|k: int| 0 <= k < i ==> find_path(#[trigger] all[k].targets, target@) is None,
    {
        assert(all[i as int].targets == path_bytes(maps@[i as int].targets@));
        if position_of(&maps[i].targets, target).is_some() {
            return true;
        }
    }
    false
}

/// The position of the mapping of a source, or nothing.
pub fn source_position(maps: &Vec<Mapping>, source: &PathBuf) -> (res: Option<usize>)
    ensures
        match res {
            Some(i) => find_source(links(maps@), source@) == Some(i as int) && i < maps@.len(),
            None => find_source(links(maps@), source@) is None,
        },
{
    let ghost all = links(maps@);
    for i in 0..maps.len()
        invariant
            all == links(maps@),
            find_source(all.take(i as int), source@) is None,
    {
        assert(all.take(i + 1).drop_last() =~= all.take(i as int));
        assert(all.take(i + 1).last() == maps@[i as int]@);
        if maps[i].source_rel.same(source) {
            proof {
                lemma_find_source_take(all, source@, i + 1);
            }
            return Some(i);
        }
    }
    assert(all.take(maps@.len() as int) =~= all);
    None
}

proof fn lemma_find_source_take(maps: Seq<Link>, source: Seq<u8>, i: int)
    requires
        0 <= i <= maps.len(),
        find_source(maps.take(i), source) is Some,
    ensures
        find_source(maps, source) == find_source(maps.take(i), source),
    decreases maps.len(),
{
    if i == maps.len() {
        assert(maps.take(i) =~= maps);
    } else {
        assert(maps.drop_last().take(i) =~= maps.take(i));
        lemma_find_source_take(maps.drop_last(), source, i);
    }
}

fn remove_path(paths: &Vec<PathBuf>, p: &PathBuf) -> (res: Vec<PathBuf>)
    ensures
        path_bytes(res@) == without_path(path_bytes(paths@), p@),
{
    let ghost all = path_bytes(paths@);
    let mut out: Vec<PathBuf> = Vec::new();
    assert(path_bytes(out@) =~= Seq::empty());
    for i in 0..paths.len()
        invariant
            all == path_bytes(paths@),
            path_bytes(out@) == without_path(all.take(i as int), p@),
    {
        let ghost before = path_bytes(out@);
        assert(all.take(i + 1).drop_last() =~= all.take(i as int));
        assert(all.take(i + 1).last() == paths@[i as int]@);
        if !paths[i].same(p) {
            let q = paths[i].clone();
            assert(path_bytes(out@.push(q)) =~= before.push(q@));
            out.push(q);
        }
    }
    assert(all.take(paths@.len() as int) =~= all);
    out
}

fn remove_target(maps: &Vec<Mapping>, target: &PathBuf) -> (res: Vec<Mapping>)
    ensures
        links(res@) == without_target(links(maps@), target@),
{
    let ghost all = links(maps@);
    let mut out: Vec<Mapping> = Vec::new();
    assert(links(out@) =~= Seq::empty());
    for i in 0..maps.len()
        invariant
            all == links(maps@),
            links(out@) == without_target(all.take(i as int), target@),
    {
        let ghost before = links(out@);
        assert(all.take(i + 1).drop_last() =~= all.take(i as int));
        assert(all.take(i + 1).last() == maps@[i as int]@);
        let targets = remove_path(&maps[i].targets, target);
        assert(path_bytes(targets@).len() == targets@.len());
        if targets.len() > 0 {
            let m = Mapping { source_rel: maps[i].source_rel.clone(), targets };
            assert(links(out@.push(m)) =~= before.push(m@));
            out.push(m);
        }
    }
    assert(all.take(maps@.len() as int) =~= all);
    out
}

fn insert_pair(rows: &mut Vec<Pair>, p: Pair)
    ensures
        pairs(final(rows)@) == with_pair(pairs(old(rows)@), p@),
{
    let ghost all = pairs(rows@);
    let mut i: usize = rows.len();
    assert(all.take(i as int) =~= all);
    assert(with_pair(all, p@) + all.skip(i as int) =~= with_pair(all, p@));
    while i > 0 && rows[i - 1].target.order(&p.target) == Order::Greater
        invariant
            i <= rows@.len(),
            *rows == *old(rows),
            all == pairs(rows@),
            with_pair(all, p@) == with_pair(all.take(i as int), p@) + all.skip(i as int),
        ensures
            i <= rows@.len(),
            *rows == *old(rows),
            all == pairs(rows@),
            with_pair(all, p@) == with_pair(all.take(i as int), p@) + all.skip(i as int),
            i == 0 || path_order(all[i - 1].target, p@.target) != Order::Greater,
        decreases i,
    {
        proof {
            let front = all.take(i as int);
            assert(front.last() == rows@[i - 1]@);
            assert(front.drop_last() =~= all.take(i - 1));
            assert(all.skip(i - 1) =~= seq![front.last()] + all.skip(i as int));
            assert(with_pair(front, p@) + all.skip(i as int) =~= with_pair(all.take(i - 1), p@)
                + all.skip(i - 1));
        }
        i -= 1;
    }
    proof {
        let front = all.take(i as int);
        if i > 0 {
            assert(front.last() == all[i - 1]);
        }
        assert(with_pair(front, p@) == front.push(p@));
        assert(pairs(rows@.insert(i as int, p)) =~= front.push(p@) + all.skip(i as int));
    }
    rows.insert(i, p);
}

// --- Transitions -----------------------------------------------------------

/// What picking the highlighted source makes of the state.
pub open spec fn source_toggled(before: MapApp, after: MapApp) -> bool {
    if before.src_cursor >= before.source_files@.len() {
        after == before
    } else {
        let rel = before.source_files@[before.src_cursor as int]@;
        &&& after == (MapApp {
            selected_source: after.selected_source,
            status: after.status,
            status_is_error: false,
            ..before
        })
        &&& if before.selected_source matches Some(s) && same_path(s@, rel) {
            after.selected_source is None && after.status@ == "Source deselected."@
        } else {
            &&& bytes_in(after.selected_source) == Some(rel)
            &&& after.status@ == "Source: "@ + lossy_text(rel) + ". Now pick target files."@
        }
    }
}

/// A list of numbers without a given one.
pub open spec fn without_index(s: Seq<usize>, n: usize) -> Seq<usize>
    decreases s.len(),
{
    if s.len() == 0 {
        Seq::empty()
    } else if s.last() == n {
        without_index(s.drop_last(), n)
    } else {
        without_index(s.drop_last(), n).push(s.last())
    }
}

/// What `Space` on an available file or folder makes of the state.
pub open spec fn available_activated(before: MapApp, after: MapApp) -> bool {
    let rows = avail_rows(before, before.dest_roots@.len() as int);
    if before.dest_cursor >= rows.len() {
        after == before
    } else {
        match rows[before.dest_cursor as int] {
            AvailRow::Folder(r) => {
                let mid = MapApp { dest_open: after.dest_open, ..before };
                &&& after.dest_open@ == if before.dest_open@.contains(r) {
                    without_index(before.dest_open@, r)
                } else {
                    before.dest_open@.push(r)
                }
                &&& after == (MapApp {
                    dest_cursor: held(before.dest_cursor as int, dest_rows(mid)),
                    ..mid
                })
            },
            AvailRow::File(f) => {
                let abs = before.dest_files@[f as int].abs@;
                let chosen = path_bytes(before.selected_targets@);
                if find_path(chosen, abs) is Some {
                    &&& after == (MapApp {
                        selected_targets: after.selected_targets,
                        status: after.status,
                        status_is_error: false,
                        ..before
                    })
                    &&& path_bytes(after.selected_targets@) == without_path(chosen, abs)
                    &&& after.status@ == "Target deselected."@
                } else {
                    &&& after == (MapApp { selected_targets: after.selected_targets, ..before })
                    &&& path_bytes(after.selected_targets@) == chosen.push(abs)
                }
            },
        }
    }
}

/// What unmapping a target makes of the state.
pub open spec fn unmapped(before: MapApp, after: MapApp, target: Seq<u8>) -> bool {
    &&& after == (MapApp {
        mappings: after.mappings,
        status: after.status,
        status_is_error: false,
        ..before
    })
    &&& links(after.mappings@) == without_target(links(before.mappings@), target)
    &&& after.status@ == "Unmapped "@ + lossy_text(target) + "."@
}

/// What unmapping the highlighted file makes of the state.
pub open spec fn unmapped_at_cursor(before: MapApp, after: MapApp) -> bool {
    let rows = assigned(links(before.mappings@));
    if before.dest_cursor >= rows.len() {
        after == before
    } else {
        exists|mid: MapApp| #[trigger]
            unmapped(before, mid, rows[before.dest_cursor as int].target) && after == (MapApp {
                dest_cursor: held(before.dest_cursor as int, dest_rows(mid)),
                ..mid
            })
    }
}

/// What opening or closing the highlighted folder of the accordion makes of the state.
pub open spec fn info_toggled(before: MapApp, after: MapApp) -> bool {
    after == if before.info_cursor >= before.dest_roots@.len() {
        before
    } else {
        MapApp {
            info_expanded: if before.info_expanded == Some(before.info_cursor) {
                None
            } else {
                Some(before.info_cursor)
            },
            ..before
        }
    }
}

/// What `Space` makes of the state.
pub open spec fn spaced(before: MapApp, after: MapApp) -> bool {
    match before.focus {
        Pane::Sources => source_toggled(before, after),
        Pane::Destinations => match before.dest_view {
            DestView::Available => available_activated(before, after),
            DestView::Assigned => unmapped_at_cursor(before, after),
        },
        Pane::Info => info_toggled(before, after),
    }
}

/// What the status says after a save.
pub open spec fn save_text(source: Seq<u8>, s: Saved) -> Seq<char> {
    let why = match s.last_error {
        Some(why) => why,
        None => if s.added == 0 {
            "Nothing to map."@
        } else {
            ""@
        },
    };
    if s.added == 0 {
        why
    } else if s.skipped == 0 {
        "Mapped "@ + lossy_text(source) + " → "@ + decimal(s.added)
            + " file(s). Pick another, or [s] to review & sync."@
    } else {
        "Mapped "@ + decimal(s.added) + ", skipped "@ + decimal(s.skipped) + ": "@ + why
    }
}

/// What saving the selection, its targets taken in the order `targets`, makes of the
/// state.
pub open spec fn saved_in_order(before: MapApp, after: MapApp, targets: Seq<Seq<u8>>) -> bool {
    let source = before.selected_source->0@;
    let s = saved(links(before.mappings@), source, targets);
    &&& after == (MapApp {
        mappings: after.mappings,
        selected_source: if s.added > 0 {
            None
        } else {
            before.selected_source
        },
        selected_targets: after.selected_targets,
        status: after.status,
        status_is_error: s.added == 0 || s.skipped > 0,
        ..before
    })
    &&& links(after.mappings@) == s.maps
    &&& after.selected_targets@.len() == 0
    &&& after.status@ == save_text(source, s)
}

/// What saving the selection as a mapping makes of the state.
pub open spec fn mapping_saved(before: MapApp, after: MapApp) -> bool {
    if before.selected_source is None {
        told(before, after, "Pick a source file first — Space on the left pane."@, true)
    } else if before.selected_targets@.len() == 0 {
        told(
            before,
            after,
            "Pick at least one destination file — Space on the right pane."@,
            true,
        )
    } else {
        exists|targets: Seq<Seq<u8>>| #[trigger]
            is_sorted_form(targets, path_bytes(before.selected_targets@)) && saved_in_order(
                before,
                after,
                targets,
            )
    }
}

/// What flipping the destinations pane makes of the state.
pub open spec fn view_toggled(before: MapApp, after: MapApp) -> bool {
    &&& after == (MapApp {
        dest_view: match before.dest_view {
            DestView::Available => DestView::Assigned,
            DestView::Assigned => DestView::Available,
        },
        dest_cursor: 0,
        focus: Pane::Destinations,
        status: after.status,
        status_is_error: false,
        ..before
    })
    &&& after.status@ == match after.dest_view {
        DestView::Available => "Showing destination files not mapped yet."@,
        DestView::Assigned =>
            "Showing mapped files — Space/d unmaps one. [a] back to available."@,
    }
}

/// A cursor one row up.
pub open spec fn raised(cursor: usize) -> usize {
    (if cursor == 0 {
        0
    } else {
        cursor - 1
    }) as usize
}

/// What moving the cursor up makes of the state.
pub open spec fn cursor_raised(before: MapApp, after: MapApp) -> bool {
    after == match before.focus {
        Pane::Sources => MapApp { src_cursor: raised(before.src_cursor), ..before },
        Pane::Destinations => MapApp { dest_cursor: raised(before.dest_cursor), ..before },
        Pane::Info => MapApp { info_cursor: raised(before.info_cursor), ..before },
    }
}

/// What moving the cursor down makes of the state.
pub open spec fn cursor_lowered(before: MapApp, after: MapApp) -> bool {
    after == match before.focus {
        Pane::Sources => MapApp {
            src_cursor: held(before.src_cursor + 1, before.source_files@.len()),
            ..before
        },
        Pane::Destinations => MapApp {
            dest_cursor: held(before.dest_cursor + 1, dest_rows(before)),
            ..before
        },
        Pane::Info => MapApp {
            info_cursor: held(before.info_cursor + 1, before.dest_roots@.len()),
            ..before
        },
    }
}

/// Whether an issue stops a sync.
pub open spec fn is_blocked(issues: Seq<Issue>) -> bool {
    exists|i: int| 0 <= i < issues.len() && is_blocking_flaw((#[trigger] issues[i])@)
}

/// Whether a plan would write nothing.
pub open spec fn writes_nothing(p: MappingPlan) -> bool {
    p.stats.created + p.stats.updated == 0
}

/// What asking for a sync makes of the state, and whether targets are to be written.
pub open spec fn apply_asked(before: MapApp, after: MapApp, effect: MapEffect) -> bool {
    if is_blocked(before.issues@) {
        &&& told(before, after, "Resolve the blocking issues before syncing."@, true)
        &&& effect == MapEffect::Nothing
    } else {
        match before.plan {
            None => after == before && effect == MapEffect::Nothing,
            Some(p) => if writes_nothing(p) {
                &&& told(
                    before,
                    after,
                    "Everything is already in sync — nothing to write."@,
                    false,
                )
                &&& effect == MapEffect::Nothing
            } else {
                after == before && effect == MapEffect::Apply
            },
        }
    }
}

/// What a key makes of the state on the page.
pub open spec fn page_keyed(before: MapApp, key: Key, after: MapApp, effect: MapEffect) -> bool {
    if key == Key::Char('r') {
        after == before && effect == MapEffect::Rescan
    } else if key == Key::Char('s') || key == Key::Char('c') {
        if before.mappings@.len() == 0 {
            &&& told(
                before,
                after,
                "No mappings yet — pick a source and target files, then Enter."@,
                true,
            )
            &&& effect == MapEffect::Nothing
        } else {
            after == before && effect == MapEffect::Review
        }
    } else {
        &&& effect == MapEffect::Nothing
        &&& if key == Key::Tab {
            after == (MapApp { focus: before.focus.following(), ..before })
        } else if key == Key::BackTab {
            after == (MapApp { focus: before.focus.preceding(), ..before })
        } else if key == Key::Up || key == Key::Char('k') {
            cursor_raised(before, after)
        } else if key == Key::Down || key == Key::Char('j') {
            cursor_lowered(before, after)
        } else if key == Key::Left || key == Key::Char('h') {
            after == (MapApp { focus: Pane::Sources, ..before })
        } else if key == Key::Right || key == Key::Char('l') {
            after == (MapApp { focus: Pane::Destinations, ..before })
        } else if key == Key::Char(' ') {
            spaced(before, after)
        } else if key == Key::Char('a') {
            view_toggled(before, after)
        } else if key == Key::Char('d') || key == Key::Delete {
            if before.focus == Pane::Destinations && before.dest_view == DestView::Assigned {
                unmapped_at_cursor(before, after)
            } else {
                after == before
            }
        } else if key == Key::Enter {
            if before.focus == Pane::Info {
                info_toggled(before, after)
            } else {
                mapping_saved(before, after)
            }
        } else if key == Key::Char('q') || key == Key::Esc {
            after == (MapApp { exit_prompt: Some(ExitChoice::Cancel), ..before })
        } else {
            after == before
        }
    }
}

/// What a key makes of the state on the summary.
pub open spec fn summary_keyed(before: MapApp, key: Key, after: MapApp, effect: MapEffect) -> bool {
    if key == Key::Enter || key == Key::Char('y') {
        apply_asked(before, after, effect)
    } else {
        &&& effect == MapEffect::Nothing
        &&& if key == Key::Up || key == Key::Char('k') {
            after == (MapApp { summary_scroll: raised(before.summary_scroll), ..before })
        } else if key == Key::Down || key == Key::Char('j') {
            after == (MapApp {
                summary_scroll: (if before.summary_scroll == usize::MAX {
                    usize::MAX as int
                } else {
                    before.summary_scroll + 1
                }) as usize,
                ..before
            })
        } else if key == Key::Esc || key == Key::Char('q') {
            told(
                MapApp { screen: Screen::Page, ..before },
                after,
                "Back to the map page."@,
                false,
            )
        } else {
            after == before
        }
    }
}

/// What a key makes of the state while the exit dialog is open.
pub open spec fn exit_keyed(before: MapApp, key: Key, after: MapApp) -> bool {
    let focused = match before.exit_prompt {
        Some(c) => c,
        None => ExitChoice::Cancel,
    };
    if key == Key::Left || key == Key::Right || key == Key::Char('h') || key == Key::Char('l')
        || key == Key::Tab || key == Key::BackTab {
        after == (MapApp { exit_prompt: Some(focused.other()), ..before })
    } else if key == Key::Enter {
        after == (MapApp {
            exit_prompt: None,
            done: before.done || focused == ExitChoice::Confirm,
            ..before
        })
    } else if key == Key::Char('y') {
        after == (MapApp { exit_prompt: None, done: true, ..before })
    } else if key == Key::Char('n') || key == Key::Esc {
        after == (MapApp { exit_prompt: None, ..before })
    } else {
        after == before
    }
}

/// What a key makes of the state, and what is to be done outside.
pub open spec fn keyed(before: MapApp, key: Key, after: MapApp, effect: MapEffect) -> bool {
    let leaving = key == Key::Enter || key == Key::Char('q') || key == Key::Esc;
    if before.exit_prompt is Some {
        exit_keyed(before, key, after) && effect == MapEffect::Nothing
    } else {
        match before.screen {
            Screen::Page => page_keyed(before, key, after, effect),
            Screen::Summary => summary_keyed(before, key, after, effect),
            Screen::Done => {
                &&& effect == MapEffect::Nothing
                &&& after == if leaving {
                    MapApp { screen: Screen::Page, ..before }
                } else {
                    before
                }
            },
            Screen::Error => {
                &&& effect == MapEffect::Nothing
                &&& after == if leaving {
                    MapApp { screen: Screen::Page, error_msg: None, ..before }
                } else {
                    before
                }
            },
        }
    }
}

// --- Reading the folders again ---------------------------------------------

/// The paths that also occur in another list.
pub open spec fn kept_paths(paths: Seq<Seq<u8>>, there: Seq<Seq<u8>>) -> Seq<Seq<u8>>
    decreases paths.len(),
{
    if paths.len() == 0 {
        Seq::empty()
    } else if find_path(there, paths.last()) is Some {
        kept_paths(paths.drop_last(), there).push(paths.last())
    } else {
        kept_paths(paths.drop_last(), there)
    }
}

/// The numbers below `n`.
pub open spec fn kept_below(s: Seq<usize>, n: nat) -> Seq<usize>
    decreases s.len(),
{
    if s.len() == 0 {
        Seq::empty()
    } else if s.last() < n {
        kept_below(s.drop_last(), n).push(s.last())
    } else {
        kept_below(s.drop_last(), n)
    }
}

/// The paths of files.
pub open spec fn rels(s: Seq<FileSize>) -> Seq<Seq<u8>> {
    s.map_values(|f: FileSize| f.rel@)
}

/// The absolute paths of destination files.
pub open spec fn abs_paths(s: Seq<DestFile>) -> Seq<Seq<u8>> {
    s.map_values(|f: DestFile| f.abs@)
}

/// What reading the folders again makes of the state.
pub open spec fn reloaded(
    before: MapApp,
    after: MapApp,
    source: Seq<FileSize>,
    dests: Seq<Vec<FileSize>>,
) -> bool {
    let mid = MapApp {
        source_files: after.source_files,
        dest_files: after.dest_files,
        selected_source: after.selected_source,
        selected_targets: after.selected_targets,
        dest_open: after.dest_open,
        ..before
    };
    &&& path_bytes(after.source_files@) == rels(source)
    &&& dest_view_of(after.dest_files@) == all_dest_files(
        before.dest_roots@,
        dests,
        before.dest_roots@.len() as int,
    )
    &&& after.selected_source == match before.selected_source {
        Some(s) => if find_path(rels(source), s@) is Some {
            Some(s)
        } else {
            None
        },
        None => None,
    }
    &&& path_bytes(after.selected_targets@) == kept_paths(
        path_bytes(before.selected_targets@),
        abs_paths(after.dest_files@),
    )
    &&& after.dest_open@ == kept_below(before.dest_open@, before.dest_roots@.len())
    &&& after == (MapApp {
        src_cursor: held(before.src_cursor as int, source.len()),
        dest_cursor: held(before.dest_cursor as int, dest_rows(mid)),
        info_cursor: held(before.info_cursor as int, before.dest_roots@.len()),
        status: after.status,
        status_is_error: false,
        ..mid
    })
    &&& after.status@ == "Reloaded — "@ + decimal(after.source_files@.len())
        + " source file(s), "@ + decimal(after.dest_files@.len()) + " destination file(s)."@
}

// --- Review and sync -------------------------------------------------------

/// What the file system says of a target.
#[derive(Debug)]
pub struct TargetFacts {
    /// Where it really lies.
    pub resolved: PathBuf,
    /// What it holds now, where it can be read.
    pub existing: Option<Vec<u8>>,
}

/// What the file system says of a mapping.
#[derive(Debug)]
pub struct MappingFacts {
    pub source_is_file: bool,
    /// What the source holds, where it is a file.
    pub contents: Option<Vec<u8>>,
    /// Of each target.
    pub targets: Vec<TargetFacts>,
}

/// Whether there are facts for each mapping and each of its targets.
pub open spec fn facts_fit(mappings: Seq<Mapping>, facts: Seq<MappingFacts>) -> bool {
    &&& facts.len() == mappings.len()
    &&& forall|i: int|
        #![trigger facts[i]]
        0 <= i < facts.len() ==> facts[i].targets@.len() == mappings[i].targets@.len()
}

/// The mappings with where their targets really lie.
pub open spec fn located(mappings: Seq<Mapping>, facts: Seq<MappingFacts>) -> Seq<Located> {
    Seq::new(
        mappings.len(),
        |i: int|
            Located {
                source_rel: mappings[i].source_rel@,
                source_is_file: facts[i].source_is_file,
                targets: Seq::new(
                    mappings[i].targets@.len(),
                    |j: int|
                        PlaceModel {
                            path: mappings[i].targets@[j]@,
                            resolved: facts[i].targets@[j].resolved@,
                        },
                ),
            },
    )
}

/// The mappings with what their files hold.
pub open spec fn loaded(mappings: Seq<Mapping>, facts: Seq<MappingFacts>) -> Seq<Loaded> {
    Seq::new(
        mappings.len(),
        |i: int|
            Loaded {
                source_rel: mappings[i].source_rel@,
                contents: bytes_held(facts[i].contents),
                targets: Seq::new(
                    mappings[i].targets@.len(),
                    |j: int|
                        Holding {
                            target: mappings[i].targets@[j]@,
                            existing: bytes_held(facts[i].targets@[j].existing),
                        },
                ),
            },
    )
}

/// What reviewing the mappings makes of the state, and whether the sync starts at once.
pub open spec fn reviewed(
    before: MapApp,
    after: MapApp,
    source: Place,
    roots: Seq<Place>,
    facts: Seq<MappingFacts>,
    unreadable: Option<String>,
    effect: MapEffect,
) -> bool {
    let all = planned_targets(before.source@, loaded(before.mappings@, facts));
    &&& flaws(after.issues@) == validated(located(before.mappings@, facts), source, roots)
    &&& match unreadable {
        Some(why) => {
            &&& effect == MapEffect::Nothing
            &&& after == (MapApp {
                issues: after.issues,
                error_msg: Some(why),
                screen: Screen::Error,
                ..before
            })
        },
        None => {
            &&& after.plan matches Some(p) && targets_view(p.targets@) == all && tallies(
                p.stats,
                all,
            )
            &&& if before.opts.yes && !is_blocked(after.issues@) && !writes_nothing(
                after.plan->0,
            ) {
                effect == MapEffect::Apply
            } else {
                effect == MapEffect::Nothing
            }
            &&& after == (MapApp {
                issues: after.issues,
                plan: after.plan,
                summary_scroll: 0,
                screen: Screen::Summary,
                ..before
            })
        },
    }
}

/// What the summary says after a dry run.
pub open spec fn dry_run_text(p: MappingPlan) -> Seq<char> {
    "Dry run — "@ + decimal((p.stats.created + p.stats.updated) as nat)
        + " mapping change(s) previewed, nothing written."@
}

/// What the summary says after a sync.
pub open spec fn synced_text(p: MappingPlan, now: Seq<char>) -> Seq<char> {
    "Mapping sync OK — "@ + decimal((p.stats.created + p.stats.updated) as nat)
        + " written, "@ + decimal(p.stats.up_to_date as nat) + " up to date ("@ + bytes_text(
        p.stats.bytes as nat,
    ) + "). Synced at "@ + now + "."@
}

/// What the end of a sync makes of the state.
pub open spec fn apply_finished(before: MapApp, after: MapApp, now: Seq<char>) -> bool {
    match before.plan {
        None => after == before,
        Some(p) => if before.opts.dry_run {
            &&& after == (MapApp { summary: after.summary, screen: Screen::Done, ..before })
            &&& after.summary@ == dry_run_text(p)
        } else {
            &&& after == (MapApp {
                synced: true,
                synced_at: after.synced_at,
                summary: after.summary,
                screen: Screen::Done,
                ..before
            })
            &&& chars_in(after.synced_at) == Some(now)
            &&& after.summary@ == synced_text(p, now)
        },
    }
}

/// The targets of a plan that are to be written.
pub open spec fn pending_targets(s: Seq<Target>) -> Seq<Target>
    decreases s.len(),
{
    if s.len() == 0 {
        Seq::empty()
    } else if is_written(s.last().state) {
        pending_targets(s.drop_last()).push(s.last())
    } else {
        pending_targets(s.drop_last())
    }
}

proof fn lemma_changes_fit(s: Seq<Target>)
    ensures
        count(s, |t: Target| t.state == TargetState::Create) + count(
            s,
            |t: Target| t.state == TargetState::Update,
        ) <= s.len(),
    decreases s.len(),
{
    if s.len() > 0 {
        lemma_changes_fit(s.drop_last());
    }
}

impl MapApp {
    /// Whether the cursors can be counted on from and the plan's totals are its own.
    pub open spec fn wf(&self) -> bool {
        &&& self.src_cursor < usize::MAX
        &&& self.dest_cursor < usize::MAX
        &&& self.info_cursor < usize::MAX
        &&& self.plan matches Some(p) ==> tallies(p.stats, targets_view(p.targets@))
    }

    /// The mapping screen for a configuration. `source_files` and `dests` are the files
    /// below the source and below each destination, as `resolver` knows them to lie.
    pub fn new(
        config: &Config,
        mappings: Vec<Mapping>,
        opts: RunOptions,
        resolver: &Resolver,
        source_files: &Vec<FileSize>,
        dests: &Vec<Vec<FileSize>>,
    ) -> (res: MapApp)
        requires
            dests@.len() == config.destinations@.len(),
        ensures
            res.wf(),
            res.source@ == canonical_of(resolver.known@, config.source@),
            path_bytes(res.dest_roots@) == config@.destinations.map_values(
                |d: Seq<u8>| canonical_of(resolver.known@, d),
            ),
            res.opts == opts,
            res.screen == Screen::Page,
            res.mappings == mappings,
            path_bytes(res.source_files@) == rels(source_files@),
            dest_view_of(res.dest_files@) == all_dest_files(
                res.dest_roots@,
                dests@,
                res.dest_roots@.len() as int,
            ),
            res.focus == Pane::Sources,
            res.dest_view == DestView::Available,
            res.dest_open@ == if config.destinations@.len() == 1 {
                seq![0usize]
            } else {
                Seq::empty()
            },
            res.src_cursor == 0 && res.dest_cursor == 0 && res.info_cursor == 0,
            res.selected_source is None,
            res.selected_targets@.len() == 0,
            res.info_expanded is None,
            res.plan is None,
            res.issues@.len() == 0,
            res.summary_scroll == 0,
            res.error_msg is None,
            !res.synced,
            res.synced_at is None,
            res.summary@ == ""@,
            res.exit_prompt is None,
            res.status@
                == "Space picks a source (left) & target files (right). Enter saves · [s] review & sync · [q] back"@,
            !res.status_is_error,
            !res.done,
    {
        let source = resolver.canonical(&config.source);
        let ghost wanted = config@.destinations.map_values(
            |d: Seq<u8>| canonical_of(resolver.known@, d),
        );
        let mut dest_roots: Vec<PathBuf> = Vec::new();
        for i in 0..config.destinations.len()
            invariant
                wanted == config@.destinations.map_values(
                    |d: Seq<u8>| canonical_of(resolver.known@, d),
                ),
                dest_roots@.len() == i,
                forall|k: int|
                    #![trigger dest_roots@[k]]
                    0 <= k < i ==> dest_roots@[k]@ == wanted[k],
        {
            let root = resolver.canonical(&config.destinations[i]);
            assert(config@.destinations[i as int] == config.destinations@[i as int]@);
            dest_roots.push(root);
        }
        assert(path_bytes(dest_roots@) =~= wanted);
        let dest_files = list_dest_files(&dest_roots, dests);
        let mut dest_open: Vec<usize> = Vec::new();
        if dest_roots.len() == 1 {
            dest_open.push(0);
        }
        assert(dest_open@ =~= if config.destinations@.len() == 1 {
            seq![0usize]
        } else {
            Seq::empty()
        });
        MapApp {
            source,
            dest_roots,
            opts,
            screen: Screen::Page,
            mappings,
            source_files: copy_rels(source_files),
            dest_files,
            focus: Pane::Sources,
            dest_view: DestView::Available,
            dest_open,
            src_cursor: 0,
            dest_cursor: 0,
            info_cursor: 0,
            selected_source: None,
            selected_targets: Vec::new(),
            info_expanded: None,
            plan: None,
            issues: Vec::new(),
            summary_scroll: 0,
            error_msg: None,
            synced: false,
            synced_at: None,
            summary: "".to_owned(),
            exit_prompt: None,
            status: "Space picks a source (left) & target files (right). Enter saves · [s] review & sync · [q] back".to_owned(),
            status_is_error: false,
            done: false,
        }
    }

    /// What is handed back when the screen is left.
    pub fn session(self) -> (res: MapSession)
        ensures
            res.mappings == self.mappings,
            res.synced == self.synced,
            res.summary == self.summary,
    {
        MapSession { mappings: self.mappings, synced: self.synced, summary: self.summary }
    }

    fn note(&mut self, msg: String)
        ensures
            told(*old(self), *final(self), msg@, false),
    {
        self.status = msg;
        self.status_is_error = false;
    }

    fn err(&mut self, msg: String)
        ensures
            told(*old(self), *final(self), msg@, true),
    {
        self.status = msg;
        self.status_is_error = true;
    }

    // --- derived lists ---

    /// The destination files that are not mapped.
    pub fn available_indices(&self) -> (res: Vec<usize>)
        ensures
            res@ == available(*self, self.dest_files@.len() as int),
    {
        let mut out: Vec<usize> = Vec::new();
        for i in 0..self.dest_files.len()
            invariant
                out@ == available(*self, i as int),
        {
            if !mapped_anywhere(&self.mappings, &self.dest_files[i].abs) {
                out.push(i);
            }
        }
        out
    }

    /// The rows of the available files: each destination folder, followed, where it is
    /// open, by its files that are not mapped.
    pub fn available_rows(&self) -> (res: Vec<AvailRow>)
        ensures
            res@ == avail_rows(*self, self.dest_roots@.len() as int),
    {
        let mut rows: Vec<AvailRow> = Vec::new();
        for r in 0..self.dest_roots.len()
            invariant
                rows@ == avail_rows(*self, r as int),
        {
            rows.push(AvailRow::Folder(r));
            if self.is_open(r) {
                let ghost head = rows@;
                assert(head + file_rows(*self, r, 0) =~= head);
                for i in 0..self.dest_files.len()
                    invariant
                        rows@ == head + file_rows(*self, r, i as int),
                {
                    let ghost before = file_rows(*self, r, i as int);
                    if self.dest_files[i].root_idx == r && !mapped_anywhere(
                        &self.mappings,
                        &self.dest_files[i].abs,
                    ) {
                        rows.push(AvailRow::File(i));
                        assert(rows@ =~= head + before.push(AvailRow::File(i)));
                    }
                }
            }
        }
        rows
    }

    /// Whether a destination folder is open in the list of available files.
    pub fn is_open(&self, root_idx: usize) -> (res: bool)
        ensures
            res == self.dest_open@.contains(root_idx),
    {
        for i in 0..self.dest_open.len()
            invariant
                forall|k: int| 0 <= k < i ==> self.dest_open@[k] != root_idx,
        {
            if self.dest_open[i] == root_idx {
                return true;
            }
        }
        false
    }

    /// How many files of a destination folder are not mapped.
    pub fn available_in_root(&self, root_idx: usize) -> (res: usize)
        ensures
            res == available_count(*self, root_idx, self.dest_files@.len() as int),
    {
        let mut n: usize = 0;
        for i in 0..self.dest_files.len()
            invariant
                n == available_count(*self, root_idx, i as int),
                n <= i,
        {
            if self.dest_files[i].root_idx == root_idx && !mapped_anywhere(
                &self.mappings,
                &self.dest_files[i].abs,
            ) {
                n += 1;
            }
        }
        n
    }

    /// Every mapped file with its source, in order of the files.
    pub fn assigned_rows(&self) -> (res: Vec<Pair>)
        ensures
            pairs(res@) == assigned(links(self.mappings@)),
    {
        let ghost all = links(self.mappings@);
        let mut rows: Vec<Pair> = Vec::new();
        assert(pairs(rows@) =~= Seq::empty());
        for i in 0..self.mappings.len()
            invariant
                all == links(self.mappings@),
                pairs(rows@) == assigned(all.take(i as int)),
        {
            let m = &self.mappings[i];
            let ghost before = pairs(rows@);
            let ghost targets = m@.targets;
            assert(all.take(i + 1).drop_last() =~= all.take(i as int));
            assert(all.take(i + 1).last() == m@);
            for j in 0..m.targets.len()
                invariant
                    targets == m@.targets,
                    pairs(rows@) == with_pairs(before, m.source_rel@, targets.take(j as int)),
            {
                assert(targets.take(j + 1).drop_last() =~= targets.take(j as int));
                assert(targets.take(j + 1).last() == m.targets@[j as int]@);
                insert_pair(
                    &mut rows,
                    Pair { source_rel: m.source_rel.clone(), target: m.targets[j].clone() },
                );
            }
            assert(targets.take(m.targets@.len() as int) =~= targets);
        }
        assert(all.take(self.mappings@.len() as int) =~= all);
        rows
    }

    /// How many rows the destinations pane has.
    pub fn dest_len(&self) -> (res: usize)
        ensures
            res == dest_rows(*self),
    {
        match self.dest_view {
            DestView::Available => self.available_rows().len(),
            DestView::Assigned => self.assigned_rows().len(),
        }
    }

    /// A target as `folder/file`, where it lies in a destination folder.
    pub fn target_label(&self, target: &PathBuf) -> (res: String)
        ensures
            res@ == target_text(self.dest_roots@, target@, 0),
    {
        for i in 0..self.dest_roots.len()
            invariant
                target_text(self.dest_roots@, target@, 0) == target_text(
                    self.dest_roots@,
                    target@,
                    i as int,
                ),
        {
            if let Some(rel) = target.strip_prefix(&self.dest_roots[i]) {
                return text::concat3(
                    folder_name(&self.dest_roots[i]).as_str(),
                    "/",
                    rel.display().as_str(),
                );
            }
        }
        target.display()
    }

    // --- editing ---

    /// Map a source to one more target. A target of another type than the source, or
    /// one that is mapped already, is refused.
    pub fn add_target(&mut self, source_rel: PathBuf, target: PathBuf) -> (res: Result<(), String>)
        ensures
            match res {
                Ok(()) => {
                    &&& target_refusal(links(old(self).mappings@), source_rel@, target@) is None
                    &&& *final(self) == (MapApp { mappings: final(self).mappings, ..*old(self) })
                    &&& links(final(self).mappings@) == with_target(
                        links(old(self).mappings@),
                        source_rel@,
                        target@,
                    )
                },
                Err(why) => *final(self) == *old(self) && target_refusal(
                    links(old(self).mappings@),
                    source_rel@,
                    target@,
                ) == Some(why@),
            },
    {
        let se = find_ext(&source_rel);
        let te = find_ext(&target);
        if !text::same_text(se.as_str(), te.as_str()) {
            let mut s = target.display();
            s.append(" has ");
            s.append(label_ext(te.as_str()).as_str());
            s.append(", but the source ");
            s.append(source_rel.display().as_str());
            s.append(" has ");
            s.append(label_ext(se.as_str()).as_str());
            s.append(" — map files of the same type.");
            return Err(s);
        }
        if mapped_anywhere(&self.mappings, &target) {
            return Err(
                text::concat(
                    target.display().as_str(),
                    " is already mapped — a destination file can't be a target twice.",
                ),
            );
        }
        let ghost all = links(self.mappings@);
        match source_position(&self.mappings, &source_rel) {
            Some(i) => {
                let mut targets = copy_paths(&self.mappings[i].targets);
                let ghost before = path_bytes(targets@);
                targets.push(target);
                assert(path_bytes(targets@) =~= before.push(target@));
                let m = Mapping { source_rel: self.mappings[i].source_rel.clone(), targets };
                self.mappings.set(i, m);
                assert(links(self.mappings@) =~= all.update(i as int, m@));
                assert(all[i as int].targets == before);
            },
            None => {
                let mut targets: Vec<PathBuf> = Vec::new();
                targets.push(target);
                assert(path_bytes(targets@) =~= seq![target@]);
                let m = Mapping { source_rel, targets };
                self.mappings.push(m);
                assert(links(self.mappings@) =~= all.push(m@));
            },
        }
        Ok(())
    }

    /// Take a target out of the mappings; a mapping without targets is dropped.
    pub fn unmap_target(&mut self, target: &PathBuf)
        ensures
            unmapped(*old(self), *final(self), target@),
    {
        self.mappings = remove_target(&self.mappings, target);
        self.note(text::concat3("Unmapped ", target.display().as_str(), "."));
    }

    /// Save the selected source and targets as a mapping, and clear the selection. The
    /// source stays selected where no target could be saved.
    pub fn save_mapping(&mut self)
        ensures
            mapping_saved(*old(self), *final(self)),
    {
        let source_rel = match &self.selected_source {
            Some(s) => s.clone(),
            None => {
                self.err("Pick a source file first — Space on the left pane.".to_owned());
                return;
            },
        };
        if self.selected_targets.len() == 0 {
            self.err(
                "Pick at least one destination file — Space on the right pane.".to_owned(),
            );
            return;
        }
        let targets = sort_paths(&self.selected_targets);
        let ghost order = path_bytes(targets@);
        let ghost start = links(self.mappings@);
        let mut added: usize = 0;
        let mut skipped: usize = 0;
        let mut last_err: Option<String> = None;
        for i in 0..targets.len()
            invariant
                order == path_bytes(targets@),
                start == links(old(self).mappings@),
                *self == (MapApp { mappings: self.mappings, ..*old(self) }),
                ({
                    let s = saved(start, source_rel@, order.take(i as int));
                    &&& links(self.mappings@) == s.maps
                    &&& added == s.added
                    &&& skipped == s.skipped
                    &&& chars_in(last_err) == s.last_error
                }),
                added + skipped == i,
        {
            assert(order.take(i + 1).drop_last() =~= order.take(i as int));
            assert(order.take(i + 1).last() == targets@[i as int]@);
            match self.add_target(source_rel.clone(), targets[i].clone()) {
                Ok(()) => {
                    added += 1;
                },
                Err(why) => {
                    skipped += 1;
                    last_err = Some(why);
                },
            }
        }
        assert(order.take(targets@.len() as int) =~= order);
        self.selected_targets = Vec::new();
        if added > 0 {
            self.selected_source = None;
        }
        if added == 0 {
            let why = match last_err {
                Some(why) => why,
                None => "Nothing to map.".to_owned(),
            };
            self.err(why);
        } else if skipped == 0 {
            let mut m = "Mapped ".to_owned();
            m.append(source_rel.display().as_str());
            m.append(" → ");
            m.append(text::decimal_usize(added).as_str());
            m.append(" file(s). Pick another, or [s] to review & sync.");
            self.note(m);
        } else {
            let why = match last_err {
                Some(why) => why,
                None => "".to_owned(),
            };
            let mut m = "Mapped ".to_owned();
            m.append(text::decimal_usize(added).as_str());
            m.append(", skipped ");
            m.append(text::decimal_usize(skipped).as_str());
            m.append(": ");
            m.append(why.as_str());
            self.err(m);
        }
        assert(saved_in_order(*old(self), *self, order));
    }

    // --- the page ---

    /// Flip the destinations pane between available and mapped files.
    pub fn toggle_dest_view(&mut self)
        ensures
            view_toggled(*old(self), *final(self)),
    {
        self.dest_view = match self.dest_view {
            DestView::Available => DestView::Assigned,
            DestView::Assigned => DestView::Available,
        };
        self.dest_cursor = 0;
        self.focus = Pane::Destinations;
        match self.dest_view {
            DestView::Available => {
                self.note("Showing destination files not mapped yet.".to_owned());
            },
            DestView::Assigned => {
                self.note(
                    "Showing mapped files — Space/d unmaps one. [a] back to available.".to_owned(),
                );
            },
        }
    }

    fn cursor_up(&mut self)
        ensures
            cursor_raised(*old(self), *final(self)),
    {
        match self.focus {
            Pane::Sources => {
                if self.src_cursor > 0 {
                    self.src_cursor -= 1;
                }
            },
            Pane::Destinations => {
                if self.dest_cursor > 0 {
                    self.dest_cursor -= 1;
                }
            },
            Pane::Info => {
                if self.info_cursor > 0 {
                    self.info_cursor -= 1;
                }
            },
        }
    }

    fn cursor_down(&mut self)
        requires
            old(self).wf(),
        ensures
            cursor_lowered(*old(self), *final(self)),
            final(self).wf(),
    {
        match self.focus {
            Pane::Sources => {
                self.src_cursor = hold(self.src_cursor + 1, self.source_files.len());
            },
            Pane::Destinations => {
                self.dest_cursor = hold(self.dest_cursor + 1, self.dest_len());
            },
            Pane::Info => {
                self.info_cursor = hold(self.info_cursor + 1, self.dest_roots.len());
            },
        }
    }

    /// Pick the highlighted source, or put it back where it is picked.
    pub fn toggle_source(&mut self)
        ensures
            source_toggled(*old(self), *final(self)),
    {
        if self.src_cursor >= self.source_files.len() {
            return;
        }
        let rel = self.source_files[self.src_cursor].clone();
        let picked = match &self.selected_source {
            Some(s) => s.same(&rel),
            None => false,
        };
        if picked {
            self.selected_source = None;
            self.note("Source deselected.".to_owned());
        } else {
            self.note(
                text::concat3("Source: ", rel.display().as_str(), ". Now pick target files."),
            );
            self.selected_source = Some(rel);
        }
    }

    fn close_folder(&mut self, root_idx: usize)
        ensures
            *final(self) == (MapApp { dest_open: final(self).dest_open, ..*old(self) }),
            final(self).dest_open@ == without_index(old(self).dest_open@, root_idx),
    {
        let mut kept: Vec<usize> = Vec::new();
        let ghost all = self.dest_open@;
        for i in 0..self.dest_open.len()
            invariant
                *self == *old(self),
                all == self.dest_open@,
                kept@ == without_index(all.take(i as int), root_idx),
        {
            assert(all.take(i + 1).drop_last() =~= all.take(i as int));
            if self.dest_open[i] != root_idx {
                kept.push(self.dest_open[i]);
            }
        }
        assert(all.take(self.dest_open@.len() as int) =~= all);
        self.dest_open = kept;
    }

    /// Open or close the highlighted folder, or select or deselect the highlighted file.
    pub fn available_activate(&mut self)
        requires
            old(self).wf(),
        ensures
            available_activated(*old(self), *final(self)),
            final(self).wf(),
    {
        let rows = self.available_rows();
        if self.dest_cursor >= rows.len() {
            return;
        }
        match rows[self.dest_cursor] {
            AvailRow::Folder(r) => {
                if self.is_open(r) {
                    self.close_folder(r);
                } else {
                    self.dest_open.push(r);
                }
                self.dest_cursor = hold(self.dest_cursor, self.dest_len());
            },
            AvailRow::File(f) => {
                let _files: usize = self.dest_files.len();
                let _roots: usize = self.dest_roots.len();
                proof {
                    lemma_rows_in_range(
                        *self,
                        self.dest_roots@.len() as int,
                        self.dest_cursor as int,
                    );
                }
                let abs = self.dest_files[f].abs.clone();
                let ghost chosen = path_bytes(self.selected_targets@);
                if position_of(&self.selected_targets, &abs).is_some() {
                    self.selected_targets = remove_path(&self.selected_targets, &abs);
                    self.note("Target deselected.".to_owned());
                } else {
                    assert(path_bytes(self.selected_targets@.push(abs)) =~= chosen.push(abs@));
                    self.selected_targets.push(abs);
                }
            },
        }
    }

    /// Unmap the highlighted file.
    pub fn unmap_at_cursor(&mut self)
        requires
            old(self).wf(),
        ensures
            unmapped_at_cursor(*old(self), *final(self)),
            final(self).wf(),
    {
        let rows = self.assigned_rows();
        if self.dest_cursor >= rows.len() {
            return;
        }
        let target = rows[self.dest_cursor].target.clone();
        let ghost wanted = assigned(links(self.mappings@))[self.dest_cursor as int].target;
        assert(pairs(rows@)[self.dest_cursor as int] == rows@[self.dest_cursor as int]@);
        assert(target@ == wanted);
        self.unmap_target(&target);
        let ghost mid = *self;
        assert(unmapped(*old(self), mid, wanted));
        self.dest_cursor = hold(self.dest_cursor, self.dest_len());
        assert(*self == (MapApp {
            dest_cursor: held(old(self).dest_cursor as int, dest_rows(mid)),
            ..mid
        }));
    }

    fn info_enter(&mut self)
        ensures
            info_toggled(*old(self), *final(self)),
    {
        if self.info_cursor >= self.dest_roots.len() {
            return;
        }
        self.info_expanded = if self.info_expanded == Some(self.info_cursor) {
            None
        } else {
            Some(self.info_cursor)
        };
    }

    fn select(&mut self)
        requires
            old(self).wf(),
        ensures
            spaced(*old(self), *final(self)),
            final(self).wf(),
    {
        match self.focus {
            Pane::Sources => {
                self.toggle_source();
            },
            Pane::Destinations => match self.dest_view {
                DestView::Available => {
                    self.available_activate();
                },
                DestView::Assigned => {
                    self.unmap_at_cursor();
                },
            },
            Pane::Info => {
                self.info_enter();
            },
        }
    }

    /// Take over what is in the folders now. Mappings are kept; selections that are no
    /// longer there are dropped, and no cursor is left past the end of its list.
    pub fn reload(&mut self, source: &Vec<FileSize>, dests: &Vec<Vec<FileSize>>)
        requires
            old(self).wf(),
            dests@.len() == old(self).dest_roots@.len(),
        ensures
            reloaded(*old(self), *final(self), source@, dests@),
            final(self).wf(),
    {
        self.source_files = copy_rels(source);
        self.dest_files = list_dest_files(&self.dest_roots, dests);
        let there = match &self.selected_source {
            Some(s) => position_of(&self.source_files, s).is_some(),
            None => true,
        };
        if !there {
            self.selected_source = None;
        }
        self.selected_targets = keep_existing(&self.selected_targets, &self.dest_files);
        self.dest_open = keep_below(&self.dest_open, self.dest_roots.len());
        assert(path_bytes(self.source_files@).len() == self.source_files@.len());
        let rows: usize = self.dest_len();
        self.src_cursor = hold(self.src_cursor, self.source_files.len());
        self.dest_cursor = hold(self.dest_cursor, rows);
        self.info_cursor = hold(self.info_cursor, self.dest_roots.len());
        let mut s = "Reloaded — ".to_owned();
        s.append(text::decimal_usize(self.source_files.len()).as_str());
        s.append(" source file(s), ");
        s.append(text::decimal_usize(self.dest_files.len()).as_str());
        s.append(" destination file(s).");
        self.note(s);
    }

    // --- review and sync ---

    fn locate(&self, facts: &Vec<MappingFacts>) -> (res: Vec<LocatedMapping>)
        requires
            facts_fit(self.mappings@, facts@),
        ensures
            located_view(res@) == located(self.mappings@, facts@),
    {
        let ghost all = located(self.mappings@, facts@);
        let mut out: Vec<LocatedMapping> = Vec::new();
        for i in 0..self.mappings.len()
            invariant
                facts_fit(self.mappings@, facts@),
                all == located(self.mappings@, facts@),
                out@.len() == i,
                forall|k: int| #![trigger out@[k]] 0 <= k < i ==> out@[k]@ == all[k],
        {
            let m = &self.mappings[i];
            let f = &facts[i];
            let mut targets: Vec<Place> = Vec::new();
            for j in 0..m.targets.len()
                invariant
                    f.targets@.len() == m.targets@.len(),
                    targets@.len() == j,
                    forall|k: int|
                        #![trigger targets@[k]]
                        0 <= k < j ==> targets@[k]@ == (PlaceModel {
                            path: m.targets@[k]@,
                            resolved: f.targets@[k].resolved@,
                        }),
            {
                targets.push(
                    Place {
                        path: m.targets[j].clone(),
                        resolved: f.targets[j].resolved.clone(),
                    },
                );
            }
            let one = LocatedMapping {
                source_rel: m.source_rel.clone(),
                source_is_file: f.source_is_file,
                targets,
            };
            assert(one@.targets =~= all[i as int].targets);
            out.push(one);
        }
        assert(located_view(out@) =~= all);
        out
    }

    fn load(&self, facts: &Vec<MappingFacts>) -> (res: Vec<LoadedMapping>)
        requires
            facts_fit(self.mappings@, facts@),
        ensures
            loaded_view(res@) == loaded(self.mappings@, facts@),
    {
        let ghost all = loaded(self.mappings@, facts@);
        let mut out: Vec<LoadedMapping> = Vec::new();
        for i in 0..self.mappings.len()
            invariant
                facts_fit(self.mappings@, facts@),
                all == loaded(self.mappings@, facts@),
                out@.len() == i,
                forall|k: int| #![trigger out@[k]] 0 <= k < i ==> out@[k]@ == all[k],
        {
            let m = &self.mappings[i];
            let f = &facts[i];
            let mut targets: Vec<LoadedTarget> = Vec::new();
            for j in 0..m.targets.len()
                invariant
                    f.targets@.len() == m.targets@.len(),
                    targets@.len() == j,
                    forall|k: int|
                        #![trigger targets@[k]]
                        0 <= k < j ==> targets@[k]@ == (Holding {
                            target: m.targets@[k]@,
                            existing: bytes_held(f.targets@[k].existing),
                        }),
            {
                targets.push(
                    LoadedTarget {
                        target: m.targets[j].clone(),
                        existing: copy_held(&f.targets[j].existing),
                    },
                );
            }
            let one = LoadedMapping {
                source_rel: m.source_rel.clone(),
                contents: copy_held(&f.contents),
                targets,
            };
            assert(one@.targets =~= all[i as int].targets);
            out.push(one);
        }
        assert(loaded_view(out@) =~= all);
        out
    }

    /// The bytes that a sync would write, where the number fits.
    pub fn review_bytes(&self, facts: &Vec<MappingFacts>) -> (res: Option<u64>)
        requires
            facts_fit(self.mappings@, facts@),
        ensures
            match res {
                Some(n) => written_bytes(
                    planned_targets(self.source@, loaded(self.mappings@, facts@)),
                ) == n,
                None => written_bytes(
                    planned_targets(self.source@, loaded(self.mappings@, facts@)),
                ) > u64::MAX,
            },
    {
        mapping::bytes_to_write(&self.source, &self.load(facts))
    }

    /// Show what a sync would do, given what the file system says of the mappings;
    /// `unreadable` says why a source could not be read, if that is so. A run without
    /// review goes on to sync at once where nothing blocks it and there is something to
    /// write.
    pub fn enter_summary(
        &mut self,
        source: &Place,
        roots: &Vec<Place>,
        facts: &Vec<MappingFacts>,
        unreadable: Option<String>,
    ) -> (res: MapEffect)
        requires
            old(self).wf(),
            facts_fit(old(self).mappings@, facts@),
            written_bytes(
                planned_targets(old(self).source@, loaded(old(self).mappings@, facts@)),
            ) <= u64::MAX,
        ensures
            reviewed(*old(self), *final(self), *source, roots@, facts@, unreadable, res),
            final(self).wf(),
    {
        let all = self.locate(facts);
        let full = self.load(facts);
        self.issues = validate(source, roots, &all);
        match unreadable {
            Some(why) => {
                self.error_msg = Some(why);
                self.screen = Screen::Error;
                MapEffect::Nothing
            },
            None => {
                let plan = mapping::plan(&self.source, &full);
                self.summary_scroll = 0;
                let auto = self.opts.yes && !self.has_blocking() && !plan.is_noop();
                self.plan = Some(plan);
                self.screen = Screen::Summary;
                if auto {
                    MapEffect::Apply
                } else {
                    MapEffect::Nothing
                }
            },
        }
    }

    /// Whether an issue stops a sync.
    pub fn has_blocking(&self) -> (res: bool)
        ensures
            res == is_blocked(self.issues@),
    {
        for i in 0..self.issues.len()
            invariant
                forall|k: int| 0 <= k < i ==> !is_blocking_flaw((#[trigger] self.issues@[k])@),
        {
            if self.issues[i].is_blocking() {
                return true;
            }
        }
        false
    }

    /// Ask for a sync: it is refused while something blocks it, and not needed where
    /// there is nothing to write.
    pub fn apply(&mut self) -> (res: MapEffect)
        ensures
            apply_asked(*old(self), *final(self), res),
    {
        if self.has_blocking() {
            self.err("Resolve the blocking issues before syncing.".to_owned());
            return MapEffect::Nothing;
        }
        let noop = match &self.plan {
            None => {
                return MapEffect::Nothing;
            },
            Some(p) => p.is_noop(),
        };
        if noop {
            self.note("Everything is already in sync — nothing to write.".to_owned());
            return MapEffect::Nothing;
        }
        MapEffect::Apply
    }

    /// The targets that a sync writes, in order.
    pub fn pending(&self) -> (res: Vec<TargetPlan>)
        ensures
            targets_view(res@) == match self.plan {
                Some(p) => pending_targets(targets_view(p.targets@)),
                None => Seq::empty(),
            },
    {
        let mut out: Vec<TargetPlan> = Vec::new();
        assert(targets_view(out@) =~= Seq::empty());
        if let Some(p) = &self.plan {
            let ghost all = targets_view(p.targets@);
            for i in 0..p.targets.len()
                invariant
                    all == targets_view(p.targets@),
                    targets_view(out@) == pending_targets(all.take(i as int)),
            {
                let ghost before = targets_view(out@);
                assert(all.take(i + 1).drop_last() =~= all.take(i as int));
                assert(all.take(i + 1).last() == p.targets@[i as int]@);
                if p.targets[i].will_write() {
                    let t = p.targets[i].clone();
                    assert(targets_view(out@.push(t)) =~= before.push(t@));
                    out.push(t);
                }
            }
            assert(all.take(p.targets@.len() as int) =~= all);
        }
        out
    }

    /// A target could not be written.
    pub fn apply_failed(&mut self, why: String)
        ensures
            *final(self) == (MapApp {
                error_msg: Some(why),
                screen: Screen::Error,
                ..*old(self)
            }),
    {
        self.error_msg = Some(why);
        self.screen = Screen::Error;
    }

    /// Every pending target was written, or on a dry run passed, at `now`.
    pub fn apply_done_at(&mut self, now: String)
        requires
            old(self).wf(),
        ensures
            apply_finished(*old(self), *final(self), now@),
            final(self).wf(),
    {
        let (changes, up_to_date, bytes): (usize, usize, u64) = match &self.plan {
            None => {
                return;
            },
            Some(p) => {
                proof {
                    lemma_changes_fit(targets_view(p.targets@));
                }
                let _len: usize = p.targets.len();
                (p.changes(), p.stats.up_to_date, p.stats.bytes)
            },
        };
        if self.opts.dry_run {
            self.summary = text::concat3(
                "Dry run — ",
                text::decimal_usize(changes).as_str(),
                " mapping change(s) previewed, nothing written.",
            );
        } else {
            let mut s = "Mapping sync OK — ".to_owned();
            s.append(text::decimal_usize(changes).as_str());
            s.append(" written, ");
            s.append(text::decimal_usize(up_to_date).as_str());
            s.append(" up to date (");
            s.append(human_bytes(bytes).as_str());
            s.append("). Synced at ");
            s.append(now.as_str());
            s.append(".");
            self.synced = true;
            self.synced_at = Some(now);
            self.summary = s;
        }
        self.screen = Screen::Done;
    }

    /// Every pending target was written, or on a dry run passed, just now.
    pub fn apply_done(&mut self)
        requires
            old(self).wf(),
        ensures
            exists|now: Seq<char>| #[trigger]
                is_timestamp(now) && apply_finished(*old(self), *final(self), now),
            final(self).wf(),
    {
        let now = clock::now_rfc3339();
        let ghost stamp = now@;
        self.apply_done_at(now);
        assert(is_timestamp(stamp));
    }

    // --- keys ---

    /// Take in a key, and say what is to be done outside.
    pub fn on_key(&mut self, key: Key) -> (res: MapEffect)
        requires
            old(self).wf(),
        ensures
            keyed(*old(self), key, *final(self), res),
            final(self).wf(),
    {
        // The exit dialog takes every key while it is open.
        if self.exit_prompt.is_some() {
            self.on_key_exit_prompt(key);
            return MapEffect::Nothing;
        }
        let leaving = key == Key::Enter || key == Key::Char('q') || key == Key::Esc;
        match self.screen {
            Screen::Page => self.on_key_page(key),
            Screen::Summary => self.on_key_summary(key),
            Screen::Done => {
                if leaving {
                    self.screen = Screen::Page;
                }
                MapEffect::Nothing
            },
            Screen::Error => {
                if leaving {
                    self.error_msg = None;
                    self.screen = Screen::Page;
                }
                MapEffect::Nothing
            },
        }
    }

    fn on_key_exit_prompt(&mut self, key: Key)
        ensures
            exit_keyed(*old(self), key, *final(self)),
    {
        let focused = match self.exit_prompt {
            Some(c) => c,
            None => ExitChoice::Cancel,
        };
        if key == Key::Left || key == Key::Right || key == Key::Char('h') || key == Key::Char('l')
            || key == Key::Tab || key == Key::BackTab {
            self.exit_prompt = Some(focused.toggle());
        } else if key == Key::Enter {
            self.exit_prompt = None;
            if focused == ExitChoice::Confirm {
                self.done = true;
            }
        } else if key == Key::Char('y') {
            self.exit_prompt = None;
            self.done = true;
        } else if key == Key::Char('n') || key == Key::Esc {
            self.exit_prompt = None;
        }
    }

    fn on_key_page(&mut self, key: Key) -> (res: MapEffect)
        requires
            old(self).wf(),
        ensures
            page_keyed(*old(self), key, *final(self), res),
            final(self).wf(),
    {
        if key == Key::Char('r') {
            return MapEffect::Rescan;
        }
        if key == Key::Char('s') || key == Key::Char('c') {
            if self.mappings.len() == 0 {
                self.err(
                    "No mappings yet — pick a source and target files, then Enter.".to_owned(),
                );
                return MapEffect::Nothing;
            }
            return MapEffect::Review;
        }
        if key == Key::Tab {
            self.focus = self.focus.next();
        } else if key == Key::BackTab {
            self.focus = self.focus.prev();
        } else if key == Key::Up || key == Key::Char('k') {
            self.cursor_up();
        } else if key == Key::Down || key == Key::Char('j') {
            self.cursor_down();
        } else if key == Key::Left || key == Key::Char('h') {
            self.focus = Pane::Sources;
        } else if key == Key::Right || key == Key::Char('l') {
            self.focus = Pane::Destinations;
        } else if key == Key::Char(' ') {
            self.select();
        } else if key == Key::Char('a') {
            self.toggle_dest_view();
        } else if key == Key::Char('d') || key == Key::Delete {
            if self.focus == Pane::Destinations && self.dest_view == DestView::Assigned {
                self.unmap_at_cursor();
            }
        } else if key == Key::Enter {
            if self.focus == Pane::Info {
                self.info_enter();
            } else {
                self.save_mapping();
            }
        } else if key == Key::Char('q') || key == Key::Esc {
            self.exit_prompt = Some(ExitChoice::Cancel);
        }
        MapEffect::Nothing
    }

    fn on_key_summary(&mut self, key: Key) -> (res: MapEffect)
        requires
            old(self).wf(),
        ensures
            summary_keyed(*old(self), key, *final(self), res),
            final(self).wf(),
    {
        if key == Key::Enter || key == Key::Char('y') {
            return self.apply();
        }
        if key == Key::Up || key == Key::Char('k') {
            if self.summary_scroll > 0 {
                self.summary_scroll -= 1;
            }
        } else if key == Key::Down || key == Key::Char('j') {
            if self.summary_scroll < usize::MAX {
                self.summary_scroll += 1;
            }
        } else if key == Key::Esc || key == Key::Char('q') {
            self.screen = Screen::Page;
            self.note("Back to the map page.".to_owned());
        }
        MapEffect::Nothing
    }
}

fn copy_rels(files: &Vec<FileSize>) -> (res: Vec<PathBuf>)
    ensures
        path_bytes(res@) == rels(files@),
{
    let mut out: Vec<PathBuf> = Vec::new();
    for i in 0..files.len()
        invariant
            out@.len() == i,
            forall|k: int| #![trigger out@[k]] 0 <= k < i ==> out@[k]@ == files@[k].rel@,
    {
        out.push(files[i].rel.clone());
    }
    assert(path_bytes(out@) =~= rels(files@));
    out
}

fn copy_held(c: &Option<Vec<u8>>) -> (res: Option<Vec<u8>>)
    ensures
        bytes_held(res) == bytes_held(*c),
{
    match c {
        Some(b) => Some(copy_bytes(b)),
        None => None,
    }
}

fn keep_existing(paths: &Vec<PathBuf>, files: &Vec<DestFile>) -> (res: Vec<PathBuf>)
    ensures
        path_bytes(res@) == kept_paths(path_bytes(paths@), abs_paths(files@)),
{
    let mut there: Vec<PathBuf> = Vec::new();
    for i in 0..files.len()
        invariant
            there@.len() == i,
            forall|k: int| #![trigger there@[k]] 0 <= k < i ==> there@[k]@ == files@[k].abs@,
    {
        there.push(files[i].abs.clone());
    }
    assert(path_bytes(there@) =~= abs_paths(files@));
    let ghost all = path_bytes(paths@);
    let mut out: Vec<PathBuf> = Vec::new();
    assert(path_bytes(out@) =~= Seq::empty());
    for i in 0..paths.len()
        invariant
            path_bytes(there@) == abs_paths(files@),
            all == path_bytes(paths@),
            path_bytes(out@) == kept_paths(all.take(i as int), abs_paths(files@)),
    {
        let ghost before = path_bytes(out@);
        assert(all.take(i + 1).drop_last() =~= all.take(i as int));
        assert(all.take(i + 1).last() == paths@[i as int]@);
        if position_of(&there, &paths[i]).is_some() {
            let p = paths[i].clone();
            assert(path_bytes(out@.push(p)) =~= before.push(p@));
            out.push(p);
        }
    }
    assert(all.take(paths@.len() as int) =~= all);
    out
}

fn keep_below(s: &Vec<usize>, n: usize) -> (res: Vec<usize>)
    ensures
        res@ == kept_below(s@, n as nat),
{
    let mut out: Vec<usize> = Vec::new();
    for i in 0..s.len()
        invariant
            out@ == kept_below(s@.take(i as int), n as nat),
    {
        assert(s@.take(i + 1).drop_last() =~= s@.take(i as int));
        if s[i] < n {
            out.push(s[i]);
        }
    }
    assert(s@.take(s@.len() as int) =~= s@);
    out
}

proof fn lemma_file_rows_in_range(a: MapApp, r: usize, n: int, k: int)
    requires
        0 <= n <= a.dest_files@.len(),
        n <= usize::MAX,
        0 <= k < file_rows(a, r, n).len(),
    ensures
        file_rows(a, r, n)[k] matches AvailRow::File(f) && f < n,
    decreases n,
{
    if n > 0 && k < file_rows(a, r, n - 1).len() {
        lemma_file_rows_in_range(a, r, n - 1, k);
    }
}

/// Every row of the available files names a folder or a file that there is.
pub proof fn lemma_rows_in_range(a: MapApp, n: int, k: int)
    requires
        0 <= n <= a.dest_roots@.len(),
        a.dest_files@.len() <= usize::MAX,
        n <= usize::MAX,
        0 <= k < avail_rows(a, n).len(),
    ensures
        avail_rows(a, n)[k] matches AvailRow::File(f) ==> f < a.dest_files@.len(),
        avail_rows(a, n)[k] matches AvailRow::Folder(r) ==> r < n,
    decreases n,
{
    let before = avail_rows(a, n - 1);
    if k < before.len() {
        lemma_rows_in_range(a, n - 1, k);
    } else if k > before.len() {
        let rows = file_rows(a, (n - 1) as usize, a.dest_files@.len() as int);
        lemma_file_rows_in_range(
            a,
            (n - 1) as usize,
            a.dest_files@.len() as int,
            k - before.len() - 1,
        );
        assert(avail_rows(a, n)[k] == rows[k - before.len() - 1]);
    }
}

// --- Laws ------------------------------------------------------------------

/// Whether no destination file is a target twice, in one mapping or in two.
pub open spec fn targets_unique(maps: Seq<Link>) -> bool {
    forall|i: int, j: int, k: int, l: int|
        #![trigger maps[i].targets[j], maps[k].targets[l]]
        0 <= i < maps.len() && 0 <= j < maps[i].targets.len() && 0 <= k < maps.len() && 0 <= l
            < maps[k].targets.len() && (i != k || j != l) ==> !same_path(
            maps[i].targets[j],
            maps[k].targets[l],
        )
}

/// Whether every target is of the type of its source.
pub open spec fn types_match(maps: Seq<Link>) -> bool {
    forall|i: int, j: int|
        #![trigger maps[i].targets[j]]
        0 <= i < maps.len() && 0 <= j < maps[i].targets.len() ==> ext_of(maps[i].targets[j])
            == ext_of(maps[i].source_rel)
}

/// A mapping that is found is one of the source.
pub proof fn lemma_find_source(maps: Seq<Link>, source: Seq<u8>)
    ensures
        find_source(maps, source) matches Some(i) ==> 0 <= i < maps.len() && same_path(
            maps[i].source_rel,
            source,
        ),
    decreases maps.len(),
{
    if maps.len() > 0 {
        lemma_find_source(maps.drop_last(), source);
    }
}

proof fn lemma_not_mapped(maps: Seq<Link>, target: Seq<u8>)
    ensures
        !is_mapped(maps, target) ==> forall|i: int, j: int|
            #![trigger maps[i].targets[j]]
            0 <= i < maps.len() && 0 <= j < maps[i].targets.len() ==> !same_path(
                maps[i].targets[j],
                target,
            ),
{
    if !is_mapped(maps, target) {
        assert forall|i: int, j: int|
            #![trigger maps[i].targets[j]]
            0 <= i < maps.len() && 0 <= j < maps[i].targets.len() implies !same_path(
            maps[i].targets[j],
            target,
        ) by {
            crate::ui::browser::lemma_find_path(maps[i].targets, target);
        }
    }
}

/// A target that is not refused keeps targets unique and of the type of their source,
/// and is mapped afterwards.
pub proof fn law_adding_keeps_the_rules(maps: Seq<Link>, source: Seq<u8>, target: Seq<u8>)
    requires
        target_refusal(maps, source, target) is None,
        targets_unique(maps),
        types_match(maps),
    ensures
        targets_unique(with_target(maps, source, target)),
        types_match(with_target(maps, source, target)),
        is_mapped(with_target(maps, source, target), target),
{
    let out = with_target(maps, source, target);
    lemma_find_source(maps, source);
    lemma_not_mapped(maps, target);
    let at = match find_source(maps, source) {
        Some(i) => i,
        None => maps.len() as int,
    };
    let last = (out[at].targets.len() - 1) as int;
    assert forall|i: int, j: int|
        #![trigger out[i].targets[j]]
        0 <= i < out.len() && 0 <= j < out[i].targets.len() && (i != at || j != last) implies i
        < maps.len() && j < maps[i].targets.len() && out[i].targets[j] == maps[i].targets[j]
        && out[i].source_rel == maps[i].source_rel by {}
    assert(out[at].targets[last] == target);
    assert forall|i: int, j: int, k: int, l: int|
        #![trigger out[i].targets[j], out[k].targets[l]]
        0 <= i < out.len() && 0 <= j < out[i].targets.len() && 0 <= k < out.len() && 0 <= l
            < out[k].targets.len() && (i != k || j != l) implies !same_path(
        out[i].targets[j],
        out[k].targets[l],
    ) by {
        if i == at && j == last {
            assert(out[k].targets[l] == maps[k].targets[l]);
        } else if k == at && l == last {
            assert(out[i].targets[j] == maps[i].targets[j]);
        } else {
            assert(out[i].targets[j] == maps[i].targets[j]);
            assert(out[k].targets[l] == maps[k].targets[l]);
        }
    }
    assert forall|i: int, j: int|
        #![trigger out[i].targets[j]]
        0 <= i < out.len() && 0 <= j < out[i].targets.len() implies ext_of(out[i].targets[j])
        == ext_of(out[i].source_rel) by {
        if i == at && j == last {
            assert(ext_of(out[at].source_rel) == ext_of(source));
        } else {
            assert(out[i].targets[j] == maps[i].targets[j]);
        }
    }
    crate::ui::browser::lemma_find_path(out[at].targets, target);
    if find_path(out[at].targets, target) is None {
        assert(!same_path(out[at].targets[last], target));
    }
}

/// Saving a selection keeps targets unique and of the type of their source, whatever is
/// in it.
pub proof fn law_saving_keeps_the_rules(
    maps: Seq<Link>,
    source: Seq<u8>,
    targets: Seq<Seq<u8>>,
)
    requires
        targets_unique(maps),
        types_match(maps),
    ensures
        targets_unique(saved(maps, source, targets).maps),
        types_match(saved(maps, source, targets).maps),
        saved(maps, source, targets).added + saved(maps, source, targets).skipped == targets.len(),
    decreases targets.len(),
{
    if targets.len() > 0 {
        law_saving_keeps_the_rules(maps, source, targets.drop_last());
        let s = saved(maps, source, targets.drop_last());
        if target_refusal(s.maps, source, targets.last()) is None {
            law_adding_keeps_the_rules(s.maps, source, targets.last());
        }
    }
}

proof fn lemma_without_path(paths: Seq<Seq<u8>>, p: Seq<u8>)
    ensures
        forall|j: int|
            0 <= j < without_path(paths, p).len() ==> !same_path(
                #[trigger] without_path(paths, p)[j],
                p,
            ),
        forall|j: int|
            0 <= j < without_path(paths, p).len() ==> paths.contains(
                #[trigger] without_path(paths, p)[j],
            ),
    decreases paths.len(),
{
    if paths.len() > 0 {
        let t = paths.drop_last();
        lemma_without_path(t, p);
        let out = without_path(paths, p);
        let rest = without_path(t, p);
        assert forall|j: int| 0 <= j < out.len() implies paths.contains(#[trigger] out[j]) by {
            if j < rest.len() {
                assert(out[j] == rest[j]);
                let k = choose|k: int| 0 <= k < t.len() && t[k] == rest[j];
                assert(paths[k] == out[j]);
            } else {
                assert(paths[paths.len() - 1] == out[j]);
            }
        }
    }
}

/// An unmapped file is no target any more.
pub proof fn law_unmapping_unmaps(maps: Seq<Link>, target: Seq<u8>)
    ensures
        !is_mapped(without_target(maps, target), target),
    decreases maps.len(),
{
    if maps.len() > 0 {
        let rest = without_target(maps.drop_last(), target);
        let out = without_target(maps, target);
        law_unmapping_unmaps(maps.drop_last(), target);
        lemma_without_path(maps.last().targets, target);
        if is_mapped(out, target) {
            let i = choose|i: int|
                0 <= i < out.len() && find_path(#[trigger] out[i].targets, target) is Some;
            if i < rest.len() {
                assert(out[i] == rest[i]);
                assert(find_path(rest[i].targets, target) is Some);
            } else {
                crate::ui::browser::lemma_find_path(out[i].targets, target);
            }
        }
    }
}

/// A dry run never counts as a sync.
pub proof fn law_dry_runs_do_not_sync(before: MapApp, after: MapApp, now: Seq<char>)
    requires
        apply_finished(before, after, now),
        before.opts.dry_run,
    ensures
        after.synced == before.synced,
        after.synced_at == before.synced_at,
{
}

/// The screen is left only through the exit dialog, and targets are written only once
/// a plan without blocking issues is there.
pub proof fn law_leaving_and_writing_are_meant(
    before: MapApp,
    key: Key,
    after: MapApp,
    effect: MapEffect,
)
    requires
        keyed(before, key, after, effect),
        !before.done,
    ensures
        after.done ==> before.exit_prompt is Some,
        effect == MapEffect::Apply ==> before.plan is Some && !is_blocked(before.issues@)
            && before.screen == Screen::Summary,
{
}

/// Links make no difference to the files that can be mapped.
pub proof fn law_links_are_not_listed(root: Seq<u8>, found: Seq<Found>)
    ensures
        files_below(root, without_links(found)) == files_below(root, found),
    decreases found.len(),
{
    if found.len() > 0 {
        let rest = without_links(found.drop_last());
        law_links_are_not_listed(root, found.drop_last());
        assert(rest.push(found.last()).drop_last() =~= rest);
    }
}

/// What is pending are the targets of the plan that are created or updated: just those,
/// each as often as the plan has it, in its order, and as many as its totals say.
pub proof fn law_pending_is_what_is_created_or_updated(stats: MappingStats, s: Seq<Target>)
    requires
        tallies(stats, s),
    ensures
        pending_targets(s) == s.filter(
            |t: Target| t.state == TargetState::Create || t.state == TargetState::Update,
        ),
        forall|t: Target| #[trigger]
            pending_targets(s).contains(t) <==> s.contains(t) && (t.state == TargetState::Create
                || t.state == TargetState::Update),
        pending_targets(s).len() == stats.created + stats.updated,
{
    lemma_pending(s);
    let p = |t: Target| t.state == TargetState::Create || t.state == TargetState::Update;
    broadcast use vstd::seq_lib::group_filter_ensures;
    assert forall|t: Target| #[trigger] pending_targets(s).contains(t) <==> s.contains(t) && p(
        t,
    ) by {
        lemma_pending_member(s, t);
    }
}

proof fn lemma_pending(s: Seq<Target>)
    ensures
        pending_targets(s) == s.filter(
            |t: Target| t.state == TargetState::Create || t.state == TargetState::Update,
        ),
        pending_targets(s).len() == count(s, |t: Target| t.state == TargetState::Create) + count(
            s,
            |t: Target| t.state == TargetState::Update,
        ),
    decreases s.len(),
{
    reveal(Seq::filter);
    if s.len() > 0 {
        lemma_pending(s.drop_last());
    }
}

proof fn lemma_pending_member(s: Seq<Target>, t: Target)
    ensures
        pending_targets(s).contains(t) <==> s.contains(t) && (t.state == TargetState::Create
            || t.state == TargetState::Update),
    decreases s.len(),
{
    if s.len() > 0 {
        let r = s.drop_last();
        let x = s.last();
        let a = pending_targets(r);
        lemma_pending_member(r, t);
        assert(s =~= r.push(x));
        assert(s.contains(t) <==> r.contains(t) || t == x) by {
            if r.contains(t) {
                let k = choose|k: int| 0 <= k < r.len() && r[k] == t;
                assert(s[k] == t);
            }
            if s.contains(t) {
                let k = choose|k: int| 0 <= k < s.len() && s[k] == t;
                if k < r.len() {
                    assert(r[k] == t);
                }
            }
            assert(s[s.len() - 1] == x);
        }
        assert(a.push(x).contains(t) <==> a.contains(t) || t == x) by {
            if a.contains(t) {
                let k = choose|k: int| 0 <= k < a.len() && a[k] == t;
                assert(a.push(x)[k] == t);
            }
            if a.push(x).contains(t) {
                let k = choose|k: int| 0 <= k < a.push(x).len() && a.push(x)[k] == t;
                if k < a.len() {
                    assert(a[k] == t);
                }
            }
            assert(a.push(x)[a.len() as int] == x);
        }
    }
}

/// A sync brings every target to what it should hold: of a target whose source is there,
/// either it holds that already, or what is pending has it, to be written from that
/// source.
pub proof fn law_a_sync_writes_all_that_differs(
    source: Seq<u8>,
    mappings: Seq<Loaded>,
    i: int,
    j: int,
)
    requires
        0 <= i < mappings.len(),
        0 <= j < mappings[i].targets.len(),
        mappings[i].contents is Some,
    ensures
        ({
            let m = mappings[i];
            let abs = joined(source, m.source_rel);
            let wanted = rendered(abs, m.targets[j].target, m.contents->0).0;
            let pending = pending_targets(planned_targets(source, mappings));
            m.targets[j].existing != Some(wanted) ==> exists|n: int|
                0 <= n < pending.len() && (#[trigger] pending[n]).source_abs == abs
                    && pending[n].target == m.targets[j].target && pending[n].bytes == wanted.len()
        }),
{
    let m = mappings[i];
    let abs = joined(source, m.source_rel);
    let all = planned_targets(source, mappings);
    law_plans_have_a_row_for_each_target(source, mappings, i, j);
    law_states_tell_what_differs(m.source_rel, abs, m.contents->0, m.targets[j]);
    let n = targets_before(mappings, i) + j;
    lemma_pending_member(all, all[n]);
    if m.targets[j].existing != Some(rendered(abs, m.targets[j].target, m.contents->0).0) {
        assert(all.contains(all[n]));
        let pending = pending_targets(all);
        let k = choose|k: int| 0 <= k < pending.len() && pending[k] == all[n];
        assert(pending[k].source_abs == abs);
    }
}

/// A target is taken for a source exactly where both are of the same type, by their
/// extension whatever its case, and no mapping has it yet.
pub proof fn law_targets_are_refused_exactly(maps: Seq<Link>, source: Seq<u8>, target: Seq<u8>)
    ensures
        target_refusal(maps, source, target) is None <==> ascii_lower(extension_text_of(source))
            == ascii_lower(extension_text_of(target)) && forall|i: int, j: int|
            #![trigger maps[i].targets[j]]
            0 <= i < maps.len() && 0 <= j < maps[i].targets.len() ==> !same_path(
                maps[i].targets[j],
                target,
            ),
{
    lemma_not_mapped(maps, target);
    if is_mapped(maps, target) {
        let i = choose|i: int|
            0 <= i < maps.len() && find_path(#[trigger] maps[i].targets, target) is Some;
        crate::ui::browser::lemma_find_path(maps[i].targets, target);
        let j = find_path(maps[i].targets, target)->0;
        assert(same_path(maps[i].targets[j], target));
    }
}

/// Adding a target adds it to the mapping of its source, or a mapping for it where there
/// is none, and leaves every other mapping as it is.
pub proof fn law_adding_adds_just_the_target(maps: Seq<Link>, source: Seq<u8>, target: Seq<u8>) -> (
    at: int)
    ensures
        ({
            let out = with_target(maps, source, target);
            &&& 0 <= at < out.len()
            &&& same_path(out[at].source_rel, source)
            &&& at < maps.len() ==> out.len() == maps.len() && same_path(
                maps[at].source_rel,
                source,
            ) && out[at] == (Link {
                source_rel: maps[at].source_rel,
                targets: maps[at].targets.push(target),
            })
            &&& at >= maps.len() ==> at == maps.len() && out.len() == maps.len() + 1 && out[at]
                == (Link { source_rel: source, targets: seq![target] }) && forall|i: int|
                0 <= i < maps.len() ==> !same_path((#[trigger] maps[i]).source_rel, source)
            &&& forall|i: int|
                #![trigger out[i]]
                0 <= i < maps.len() && i != at ==> out[i] == maps[i]
        }),
{
    lemma_find_source(maps, source);
    lemma_source_is_absent(maps, source);
    match find_source(maps, source) {
        Some(i) => i,
        None => maps.len() as int,
    }
}

/// Where no mapping is found, none is one of the source.
pub proof fn lemma_source_is_absent(maps: Seq<Link>, source: Seq<u8>)
    ensures
        find_source(maps, source) is None ==> forall|i: int|
            0 <= i < maps.len() ==> !same_path((#[trigger] maps[i]).source_rel, source),
    decreases maps.len(),
{
    if maps.len() > 0 && find_source(maps, source) is None {
        lemma_source_is_absent(maps.drop_last(), source);
        assert forall|i: int| 0 <= i < maps.len() implies !same_path(
            (#[trigger] maps[i]).source_rel,
            source,
        ) by {
            if i < maps.len() - 1 {
                assert(maps.drop_last()[i] == maps[i]);
            }
        }
    }
}

/// Whether every target of some mappings is a target of others, for the same source.
pub open spec fn all_kept(maps: Seq<Link>, out: Seq<Link>) -> bool {
    forall|i: int, j: int|
        #![trigger maps[i].targets[j]]
        0 <= i < maps.len() && 0 <= j < maps[i].targets.len() ==> has_pair(
            out,
            maps[i].source_rel,
            maps[i].targets[j],
        )
}

/// Whether mappings have a target for a source.
pub open spec fn has_pair(maps: Seq<Link>, source: Seq<u8>, target: Seq<u8>) -> bool {
    exists|i: int, j: int|
        #![trigger maps[i].targets[j]]
        0 <= i < maps.len() && 0 <= j < maps[i].targets.len() && same_path(
            maps[i].source_rel,
            source,
        ) && same_path(maps[i].targets[j], target)
}

proof fn lemma_adding_keeps(maps: Seq<Link>, source: Seq<u8>, target: Seq<u8>, s: Seq<u8>, t: Seq<u8>)
    requires
        has_pair(maps, s, t),
    ensures
        has_pair(with_target(maps, source, target), s, t),
{
    let out = with_target(maps, source, target);
    let at = law_adding_adds_just_the_target(maps, source, target);
    let (i, j) = choose|i: int, j: int|
        #![trigger maps[i].targets[j]]
        0 <= i < maps.len() && 0 <= j < maps[i].targets.len() && same_path(maps[i].source_rel, s)
            && same_path(maps[i].targets[j], t);
    if i != at {
        assert(out[i] == maps[i]);
    }
    assert(out[i].targets[j] == maps[i].targets[j]);
}

/// Saving a selection maps each of its targets that may be mapped to the chosen source: of
/// a target of the source's type, afterwards it is mapped, and to that source unless some
/// mapping had it before. What was mapped stays mapped.
pub proof fn law_saving_maps_the_selection(
    maps: Seq<Link>,
    source: Seq<u8>,
    targets: Seq<Seq<u8>>,
    i: int,
)
    requires
        0 <= i < targets.len(),
        ascii_lower(extension_text_of(source)) == ascii_lower(extension_text_of(targets[i])),
        forall|k: int, l: int|
            #![trigger maps[k].targets[l]]
            0 <= k < maps.len() && 0 <= l < maps[k].targets.len() ==> !same_path(
                maps[k].targets[l],
                targets[i],
            ),
    ensures
        has_pair(saved(maps, source, targets).maps, source, targets[i]),
        all_kept(maps, saved(maps, source, targets).maps),
    decreases targets.len(),
{
    lemma_saving_keeps(maps, source, targets);
    lemma_saving_maps(maps, source, targets, i);
}

proof fn lemma_saving_keeps(maps: Seq<Link>, source: Seq<u8>, targets: Seq<Seq<u8>>)
    ensures
        all_kept(maps, saved(maps, source, targets).maps),
    decreases targets.len(),
{
    if targets.len() == 0 {
        assert forall|i: int, j: int|
            #![trigger maps[i].targets[j]]
            0 <= i < maps.len() && 0 <= j < maps[i].targets.len() implies has_pair(
            maps,
            maps[i].source_rel,
            maps[i].targets[j],
        ) by {}
    } else {
        let front = targets.drop_last();
        let s = saved(maps, source, front);
        lemma_saving_keeps(maps, source, front);
        let out = saved(maps, source, targets).maps;
        assert forall|i: int, j: int|
            #![trigger maps[i].targets[j]]
            0 <= i < maps.len() && 0 <= j < maps[i].targets.len() implies has_pair(
            out,
            maps[i].source_rel,
            maps[i].targets[j],
        ) by {
            if target_refusal(s.maps, source, targets.last()) is None {
                lemma_adding_keeps(
                    s.maps,
                    source,
                    targets.last(),
                    maps[i].source_rel,
                    maps[i].targets[j],
                );
            }
        }
    }
}

/// Whether a target, where some mappings have it, is mapped to a source.
spec fn mapped_here(maps: Seq<Link>, source: Seq<u8>, target: Seq<u8>) -> bool {
    forall|k: int, l: int|
        #![trigger maps[k].targets[l]]
        0 <= k < maps.len() && 0 <= l < maps[k].targets.len() && same_path(
            maps[k].targets[l],
            target,
        ) ==> same_path(maps[k].source_rel, source)
}

proof fn lemma_saving_stays_here(
    maps: Seq<Link>,
    source: Seq<u8>,
    targets: Seq<Seq<u8>>,
    t: Seq<u8>,
)
    requires
        mapped_here(maps, source, t),
    ensures
        mapped_here(saved(maps, source, targets).maps, source, t),
    decreases targets.len(),
{
    if targets.len() > 0 {
        let front = targets.drop_last();
        lemma_saving_stays_here(maps, source, front, t);
        let s = saved(maps, source, front);
        if target_refusal(s.maps, source, targets.last()) is None {
            let out = with_target(s.maps, source, targets.last());
            let at = law_adding_adds_just_the_target(s.maps, source, targets.last());
            assert forall|k: int, l: int|
                #![trigger out[k].targets[l]]
                0 <= k < out.len() && 0 <= l < out[k].targets.len() && same_path(
                    out[k].targets[l],
                    t,
                ) implies same_path(out[k].source_rel, source) by {
                if k != at {
                    assert(out[k] == s.maps[k]);
                    assert(s.maps[k].targets[l] == out[k].targets[l]);
                }
            }
        }
    }
}

proof fn lemma_saving_maps(maps: Seq<Link>, source: Seq<u8>, targets: Seq<Seq<u8>>, i: int)
    requires
        0 <= i < targets.len(),
        ascii_lower(extension_text_of(source)) == ascii_lower(extension_text_of(targets[i])),
        mapped_here(maps, source, targets[i]),
    ensures
        has_pair(saved(maps, source, targets).maps, source, targets[i]),
    decreases targets.len(),
{
    let front = targets.drop_last();
    let s = saved(maps, source, front);
    let t = targets.last();
    if i < front.len() {
        assert(front[i] == targets[i]);
        lemma_saving_maps(maps, source, front, i);
        if target_refusal(s.maps, source, t) is None {
            lemma_adding_keeps(s.maps, source, t, source, targets[i]);
        }
    } else {
        lemma_saving_stays_here(maps, source, front, t);
        law_targets_are_refused_exactly(s.maps, source, t);
        if target_refusal(s.maps, source, t) is None {
            let at = law_adding_adds_just_the_target(s.maps, source, t);
            let out = with_target(s.maps, source, t);
            let last = out[at].targets.len() - 1;
            assert(same_path(out[at].targets[last], t));
        } else {
            let (k, l) = choose|k: int, l: int|
                #![trigger s.maps[k].targets[l]]
                0 <= k < s.maps.len() && 0 <= l < s.maps[k].targets.len() && same_path(
                    s.maps[k].targets[l],
                    t,
                );
            assert(same_path(s.maps[k].source_rel, source));
        }
    }
}

/// Unmapping a file takes it from every mapping and keeps all other targets, in order; a
/// mapping goes just where none is left.
pub proof fn law_unmapping_keeps_the_rest(maps: Seq<Link>, target: Seq<u8>)
    ensures
        without_target(maps, target) == maps.map_values(
            |m: Link|
                Link {
                    source_rel: m.source_rel,
                    targets: m.targets.filter(
                        |t: Seq<u8>| components(t) != components(target),
                    ),
                },
        ).filter(|m: Link| m.targets.len() > 0),
    decreases maps.len(),
{
    reveal(Seq::filter);
    let f = |m: Link|
        Link {
            source_rel: m.source_rel,
            targets: m.targets.filter(|t: Seq<u8>| components(t) != components(target)),
        };
    if maps.len() > 0 {
        law_unmapping_keeps_the_rest(maps.drop_last(), target);
        lemma_without_is_filter(maps.last().targets, target);
        let all = maps.map_values(f);
        assert(all.drop_last() =~= maps.drop_last().map_values(f));
        assert(all.last() == f(maps.last()));
    } else {
        assert(maps.map_values(f) =~= Seq::empty());
    }
}

proof fn lemma_without_is_filter(paths: Seq<Seq<u8>>, p: Seq<u8>)
    ensures
        without_path(paths, p) == paths.filter(|t: Seq<u8>| components(t) != components(p)),
    decreases paths.len(),
{
    reveal(Seq::filter);
    if paths.len() > 0 {
        lemma_without_is_filter(paths.drop_last(), p);
    }
}

/// The files that can be picked as targets are those of the destinations that no mapping
/// has.
pub proof fn law_available_files_are_not_mapped(a: MapApp, n: int, i: int)
    requires
        0 <= n <= a.dest_files@.len() <= usize::MAX,
        0 <= i < n,
    ensures
        available(a, n).contains(i as usize) <==> forall|k: int, l: int|
            #![trigger links(a.mappings@)[k].targets[l]]
            0 <= k < links(a.mappings@).len() && 0 <= l < links(a.mappings@)[k].targets.len()
                ==> !same_path(links(a.mappings@)[k].targets[l], a.dest_files@[i].abs@),
        forall|x: usize| #[trigger] available(a, n).contains(x) ==> x < n,
    decreases n,
{
    lemma_available(a, n);
    let maps = links(a.mappings@);
    let t = a.dest_files@[i].abs@;
    lemma_not_mapped(maps, t);
    if is_mapped(maps, t) {
        let k = choose|k: int|
            0 <= k < maps.len() && find_path(#[trigger] maps[k].targets, t) is Some;
        crate::ui::browser::lemma_find_path(maps[k].targets, t);
        assert(same_path(maps[k].targets[find_path(maps[k].targets, t)->0], t));
    }
    assert(available(a, n).contains(i as usize) <==> (i as usize) < n && is_available(
        a,
        i as usize as int,
    ));
}

proof fn lemma_available(a: MapApp, n: int)
    requires
        0 <= n <= a.dest_files@.len() <= usize::MAX,
    ensures
        forall|x: usize| #[trigger]
            available(a, n).contains(x) <==> x < n && is_available(a, x as int),
    decreases n,
{
    if n > 0 {
        lemma_available(a, n - 1);
        let r = available(a, n - 1);
        let all = available(a, n);
        assert forall|x: usize| #[trigger] all.contains(x) <==> x < n && is_available(
            a,
            x as int,
        ) by {
            assert(r.contains(x) <==> x < n - 1 && is_available(a, x as int));
            if r.contains(x) {
                let k = choose|k: int| 0 <= k < r.len() && r[k] == x;
                assert(all[k] == x);
            }
            if all.contains(x) {
                let k = choose|k: int| 0 <= k < all.len() && all[k] == x;
                if k < r.len() {
                    assert(r[k] == x);
                }
            }
            if x == n - 1 && is_available(a, n - 1) {
                assert(all[r.len() as int] == x);
            }
        }
    } else {
        assert forall|x: usize| !(#[trigger] available(a, n).contains(x)) by {}
    }
}

/// The mapped files are shown each with its source: every target of every mapping, and
/// nothing else, in order of the files.
pub proof fn law_assigned_files_are_all_shown(maps: Seq<Link>)
    ensures
        forall|i: int, j: int|
            #![trigger maps[i].targets[j]]
            0 <= i < maps.len() && 0 <= j < maps[i].targets.len() ==> assigned(maps).contains(
                PairModel { source_rel: maps[i].source_rel, target: maps[i].targets[j] },
            ),
        assigned(maps).len() == target_count(maps),
        forall|p: PairModel| #[trigger]
            assigned(maps).contains(p) ==> exists|i: int, j: int|
                #![trigger maps[i].targets[j]]
                0 <= i < maps.len() && 0 <= j < maps[i].targets.len() && p == (PairModel {
                    source_rel: maps[i].source_rel,
                    target: maps[i].targets[j],
                }),
    decreases maps.len(),
{
    if maps.len() > 0 {
        let front = maps.drop_last();
        let m = maps.last();
        law_assigned_files_are_all_shown(front);
        let rest = assigned(front);
        lemma_with_pairs(rest, m.source_rel, m.targets);
        let all = assigned(maps);
        assert(maps[maps.len() - 1] == m);
        assert forall|i: int, j: int|
            #![trigger maps[i].targets[j]]
            0 <= i < maps.len() && 0 <= j < maps[i].targets.len() implies all.contains(
            PairModel { source_rel: maps[i].source_rel, target: maps[i].targets[j] },
        ) by {
            if i < front.len() {
                assert(front[i].targets[j] == maps[i].targets[j]);
                assert(rest.contains(
                    PairModel { source_rel: maps[i].source_rel, target: maps[i].targets[j] },
                ));
            } else {
                assert(m.targets[j] == maps[i].targets[j]);
            }
        }
        assert forall|p: PairModel| #[trigger] all.contains(p) implies exists|i: int, j: int|
            #![trigger maps[i].targets[j]]
            0 <= i < maps.len() && 0 <= j < maps[i].targets.len() && p == (PairModel {
                source_rel: maps[i].source_rel,
                target: maps[i].targets[j],
            }) by {
            if rest.contains(p) {
                let (i, j) = choose|i: int, j: int|
                    #![trigger front[i].targets[j]]
                    0 <= i < front.len() && 0 <= j < front[i].targets.len() && p == (PairModel {
                        source_rel: front[i].source_rel,
                        target: front[i].targets[j],
                    });
                assert(maps[i].targets[j] == front[i].targets[j]);
            } else {
                let j = choose|j: int|
                    #![trigger m.targets[j]]
                    0 <= j < m.targets.len() && p == (PairModel {
                        source_rel: m.source_rel,
                        target: m.targets[j],
                    });
                assert(maps[maps.len() - 1].targets[j] == m.targets[j]);
            }
        }
    }
}

proof fn lemma_with_pair(rows: Seq<PairModel>, p: PairModel)
    ensures
        with_pair(rows, p).len() == rows.len() + 1,
        forall|x: PairModel| #[trigger]
            with_pair(rows, p).contains(x) <==> rows.contains(x) || x == p,
    decreases rows.len(),
{
    let out = with_pair(rows, p);
    if rows.len() == 0 || path_order(rows.last().target, p.target) != Order::Greater {
        lemma_push_member(rows, p);
    } else {
        let r = rows.drop_last();
        lemma_with_pair(r, p);
        lemma_push_member(with_pair(r, p), rows.last());
        lemma_push_member(r, rows.last());
        assert(r.push(rows.last()) =~= rows);
    }
}

proof fn lemma_push_member(s: Seq<PairModel>, p: PairModel)
    ensures
        forall|x: PairModel| #[trigger] s.push(p).contains(x) <==> s.contains(x) || x == p,
{
    assert forall|x: PairModel| #[trigger] s.push(p).contains(x) <==> s.contains(x) || x == p by {
        if s.contains(x) {
            let k = choose|k: int| 0 <= k < s.len() && s[k] == x;
            assert(s.push(p)[k] == x);
        }
        if s.push(p).contains(x) {
            let k = choose|k: int| 0 <= k < s.push(p).len() && s.push(p)[k] == x;
            if k < s.len() {
                assert(s[k] == x);
            }
        }
        assert(s.push(p)[s.len() as int] == p);
    }
}

proof fn lemma_with_pairs(rows: Seq<PairModel>, source: Seq<u8>, targets: Seq<Seq<u8>>)
    ensures
        with_pairs(rows, source, targets).len() == rows.len() + targets.len(),
        forall|x: PairModel| #[trigger]
            with_pairs(rows, source, targets).contains(x) <==> rows.contains(x) || exists|j: int|
                #![trigger targets[j]]
                0 <= j < targets.len() && x == (PairModel {
                    source_rel: source,
                    target: targets[j],
                }),
    decreases targets.len(),
{
    if targets.len() > 0 {
        let t = targets.drop_last();
        let p = PairModel { source_rel: source, target: targets.last() };
        lemma_with_pairs(rows, source, t);
        let r = with_pairs(rows, source, t);
        lemma_with_pair(r, p);
        assert forall|x: PairModel| #[trigger]
            with_pairs(rows, source, targets).contains(x) <==> rows.contains(x) || exists|j: int|
                #![trigger targets[j]]
                0 <= j < targets.len() && x == (PairModel {
                    source_rel: source,
                    target: targets[j],
                }) by {
            assert(with_pair(r, p).contains(x) <==> r.contains(x) || x == p);
            if exists|j: int|
                #![trigger t[j]]
                0 <= j < t.len() && x == (PairModel { source_rel: source, target: t[j] }) {
                let j = choose|j: int|
                    #![trigger t[j]]
                    0 <= j < t.len() && x == (PairModel { source_rel: source, target: t[j] });
                assert(targets[j] == t[j]);
            }
            if x == p {
                assert(targets[targets.len() - 1] == targets.last());
            }
            if exists|j: int|
                #![trigger targets[j]]
                0 <= j < targets.len() && x == (PairModel {
                    source_rel: source,
                    target: targets[j],
                }) {
                let j = choose|j: int|
                    #![trigger targets[j]]
                    0 <= j < targets.len() && x == (PairModel {
                        source_rel: source,
                        target: targets[j],
                    });
                if j < t.len() {
                    assert(t[j] == targets[j]);
                }
            }
        }
    } else {
        assert forall|x: PairModel| #[trigger]
            with_pairs(rows, source, targets).contains(x) <==> rows.contains(x) || exists|j: int|
                #![trigger targets[j]]
                0 <= j < targets.len() && x == (PairModel {
                    source_rel: source,
                    target: targets[j],
                }) by {}
    }
}

/// Reading the folders again keeps what is selected exactly where it is still there.
pub proof fn law_reloading_keeps_what_is_there(paths: Seq<Seq<u8>>, there: Seq<Seq<u8>>)
    ensures
        kept_paths(paths, there) == paths.filter(
            |p: Seq<u8>|
                exists|i: int|
                    0 <= i < there.len() && components(#[trigger] there[i]) == components(p),
        ),
    decreases paths.len(),
{
    reveal(Seq::filter);
    if paths.len() > 0 {
        law_reloading_keeps_what_is_there(paths.drop_last(), there);
        let p = paths.last();
        crate::ui::browser::lemma_find_path(there, p);
        match find_path(there, p) {
            Some(i) => {
                assert(components(there[i]) == components(p));
            },
            None => {
                assert forall|i: int| 0 <= i < there.len() implies components(
                    #[trigger] there[i],
                ) != components(p) by {
                    assert(!same_path(there[i], p));
                }
            },
        }
    }
}

/// The files of a folder that are listed are its regular files, whatever their size, each
/// with its size under its path in the folder.
pub proof fn law_every_file_is_listed(root: Seq<u8>, found: Seq<Found>)
    ensures
        files_below(root, found).len() == found.filter(
            |f: Found|
                !f.is_symlink && f.is_file && components(root).is_prefix_of(components(f.path@)),
        ).len(),
        forall|i: int|
            #![trigger found[i]]
            0 <= i < found.len() && !found[i].is_symlink && found[i].is_file && (stripped(
                found[i].path@,
                root,
            ) is Some) ==> files_below(root, found).contains(
                FileInfo { rel: stripped(found[i].path@, root)->0, size: found[i].len },
            ),
    decreases found.len(),
{
    reveal(Seq::filter);
    if found.len() > 0 {
        let front = found.drop_last();
        let f = found.last();
        law_every_file_is_listed(root, front);
        assert(found[found.len() - 1] == f);
        let rest = files_below(root, front);
        let all = files_below(root, found);
        if !f.is_symlink && f.is_file && stripped(f.path@, root) is Some {
            lemma_with_sized(rest, FileInfo { rel: stripped(f.path@, root)->0, size: f.len });
        }
        assert forall|i: int|
            #![trigger found[i]]
            0 <= i < found.len() && !found[i].is_symlink && found[i].is_file && (stripped(
                found[i].path@,
                root,
            ) is Some) implies all.contains(
            FileInfo { rel: stripped(found[i].path@, root)->0, size: found[i].len },
        ) by {
            if i < front.len() {
                assert(front[i] == found[i]);
                assert(rest.contains(
                    FileInfo { rel: stripped(found[i].path@, root)->0, size: found[i].len },
                ));
            }
        }
    }
}

proof fn lemma_with_sized(files: Seq<FileInfo>, f: FileInfo)
    ensures
        with_sized(files, f).len() == files.len() + 1,
        with_sized(files, f).contains(f),
        forall|x: FileInfo| #[trigger] files.contains(x) ==> with_sized(files, f).contains(x),
    decreases files.len(),
{
    let out = with_sized(files, f);
    if files.len() == 0 || path_order(files.last().rel, f.rel) != Order::Greater {
        assert(out[files.len() as int] == f);
        assert forall|x: FileInfo| #[trigger] files.contains(x) implies out.contains(x) by {
            let k = choose|k: int| 0 <= k < files.len() && files[k] == x;
            assert(out[k] == x);
        }
    } else {
        let r = files.drop_last();
        lemma_with_sized(r, f);
        let o = with_sized(r, f);
        let k = choose|k: int| 0 <= k < o.len() && o[k] == f;
        assert(out[k] == f);
        assert forall|x: FileInfo| #[trigger] files.contains(x) implies out.contains(x) by {
            let k = choose|k: int| 0 <= k < files.len() && files[k] == x;
            if k < r.len() {
                assert(r[k] == x);
                assert(r.contains(x));
                let n = choose|n: int| 0 <= n < o.len() && o[n] == x;
                assert(out[n] == x);
            } else {
                assert(out[o.len() as int] == x);
            }
        }
    }
}

/// The destination files of the screen are those of each destination folder, at the path
/// that they have in it.
pub proof fn law_every_destination_file_is_listed(
    roots: Seq<PathBuf>,
    files: Seq<Vec<FileSize>>,
    r: int,
    j: int,
)
    requires
        0 <= r < roots.len() <= usize::MAX,
        roots.len() == files.len(),
        0 <= j < files[r]@.len(),
    ensures
        all_dest_files(roots, files, roots.len() as int).contains(
            DestModel {
                root_idx: r as usize,
                abs: joined(roots[r]@, files[r]@[j].rel@),
                rel: files[r]@[j].rel@,
                size: files[r]@[j].size,
            },
        ),
{
    lemma_dest_files_contain(roots, files, roots.len() as int, r, j);
}

proof fn lemma_dest_files_contain(
    roots: Seq<PathBuf>,
    files: Seq<Vec<FileSize>>,
    n: int,
    r: int,
    j: int,
)
    requires
        0 <= r < n <= roots.len() <= usize::MAX,
        roots.len() == files.len(),
        0 <= j < files[r]@.len(),
    ensures
        all_dest_files(roots, files, n).contains(
            DestModel {
                root_idx: r as usize,
                abs: joined(roots[r]@, files[r]@[j].rel@),
                rel: files[r]@[j].rel@,
                size: files[r]@[j].size,
            },
        ),
    decreases n,
{
    let d = DestModel {
        root_idx: r as usize,
        abs: joined(roots[r]@, files[r]@[j].rel@),
        rel: files[r]@[j].rel@,
        size: files[r]@[j].size,
    };
    let rest = all_dest_files(roots, files, n - 1);
    let mine = dest_files_in(roots[n - 1]@, n - 1, sizes(files[n - 1]@));
    let all = all_dest_files(roots, files, n);
    if r < n - 1 {
        lemma_dest_files_contain(roots, files, n - 1, r, j);
        let k = choose|k: int| 0 <= k < rest.len() && rest[k] == d;
        assert(all[k] == d);
    } else {
        assert(mine[j] == d);
        assert(all[rest.len() + j] == d);
    }
}

/// A sync of the mappings starts exactly where no issue blocks it and the plan has
/// something to write.
pub proof fn law_syncs_start_when_they_may(before: MapApp, after: MapApp, effect: MapEffect)
    requires
        apply_asked(before, after, effect),
    ensures
        effect == MapEffect::Apply <==> (forall|i: int|
            0 <= i < before.issues@.len() ==> (#[trigger] before.issues@[i])@ is SourceMissing) && (
        before.plan matches Some(p) && p.stats.created + p.stats.updated > 0),
        effect != MapEffect::Apply ==> effect == MapEffect::Nothing,
        after.mappings == before.mappings && after.plan == before.plan,
{
    if is_blocked(before.issues@) {
        let i = choose|i: int|
            0 <= i < before.issues@.len() && is_blocking_flaw((#[trigger] before.issues@[i])@);
        assert(!(before.issues@[i]@ is SourceMissing));
    }
}

/// A review plans each mapping from what its files hold, reports what is wrong with where
/// they lie, and goes ahead by itself just on a run without review that nothing blocks and
/// that has something to write.
pub proof fn law_reviews_plan_the_mappings(
    before: MapApp,
    after: MapApp,
    source: Place,
    roots: Seq<Place>,
    facts: Seq<MappingFacts>,
    effect: MapEffect,
)
    requires
        reviewed(before, after, source, roots, facts, None, effect),
    ensures
        after.screen == Screen::Summary,
        after.mappings == before.mappings,
        after.plan is Some,
        flaws(after.issues@) == validated(located(before.mappings@, facts), source, roots),
        targets_view(after.plan->0.targets@) == planned_targets(
            before.source@,
            loaded(before.mappings@, facts),
        ),
        effect == MapEffect::Apply <==> before.opts.yes && (forall|i: int|
            0 <= i < after.issues@.len() ==> (#[trigger] after.issues@[i])@ is SourceMissing)
            && after.plan->0.stats.created + after.plan->0.stats.updated > 0,
{
    if is_blocked(after.issues@) {
        let i = choose|i: int|
            0 <= i < after.issues@.len() && is_blocking_flaw((#[trigger] after.issues@[i])@);
        assert(!(after.issues@[i]@ is SourceMissing));
    }
}

/// What a review goes by is what the file system says of each mapping and of each of its
/// targets.
pub proof fn law_reviews_go_by_the_facts(
    mappings: Seq<Mapping>,
    facts: Seq<MappingFacts>,
    i: int,
    j: int,
)
    requires
        facts_fit(mappings, facts),
        0 <= i < mappings.len(),
        0 <= j < mappings[i].targets@.len(),
    ensures
        located(mappings, facts).len() == mappings.len(),
        loaded(mappings, facts).len() == mappings.len(),
        located(mappings, facts)[i].source_is_file == facts[i].source_is_file,
        located(mappings, facts)[i].source_rel == mappings[i].source_rel@,
        located(mappings, facts)[i].targets.len() == mappings[i].targets@.len(),
        located(mappings, facts)[i].targets[j].path == mappings[i].targets@[j]@,
        located(mappings, facts)[i].targets[j].resolved == facts[i].targets@[j].resolved@,
        loaded(mappings, facts)[i].source_rel == mappings[i].source_rel@,
        loaded(mappings, facts)[i].contents == bytes_held(facts[i].contents),
        loaded(mappings, facts)[i].targets.len() == mappings[i].targets@.len(),
        loaded(mappings, facts)[i].targets[j].target == mappings[i].targets@[j]@,
        loaded(mappings, facts)[i].targets[j].existing == bytes_held(
            facts[i].targets@[j].existing,
        ),
{
}

/// A sync that went through is done: but for a dry run it counts, at its time.
pub proof fn law_finished_syncs_count(before: MapApp, after: MapApp, now: Seq<char>)
    requires
        apply_finished(before, after, now),
        before.plan is Some,
    ensures
        after.screen == Screen::Done,
        !before.opts.dry_run ==> after.synced && chars_in(after.synced_at) == Some(now),
        before.opts.dry_run ==> after.synced == before.synced,
        after.mappings == before.mappings,
{
}

/// What the keys of the page do: s reviews where there are mappings, r reads the folders
/// again, q and Esc ask whether to leave; and only Space, d, Delete and Enter change the
/// mappings.
pub proof fn law_page_keys(before: MapApp, key: Key, after: MapApp, effect: MapEffect)
    requires
        keyed(before, key, after, effect),
        before.screen == Screen::Page,
        before.exit_prompt is None,
    ensures
        effect == MapEffect::Review <==> (key == Key::Char('s') || key == Key::Char('c'))
            && before.mappings@.len() > 0,
        effect == MapEffect::Rescan <==> key == Key::Char('r'),
        effect != MapEffect::Apply,
        key == Key::Char('q') || key == Key::Esc ==> after.exit_prompt == Some(ExitChoice::Cancel),
        key != Key::Char(' ') && key != Key::Char('d') && key != Key::Delete && key != Key::Enter
            ==> after.mappings == before.mappings && after.selected_source
            == before.selected_source && after.selected_targets == before.selected_targets,
        !after.done || before.done,
{
}

/// Space on the left picks the highlighted source, and a second time lets go of it.
pub proof fn law_space_picks_a_source(before: MapApp, after: MapApp)
    requires
        source_toggled(before, after),
        before.src_cursor < before.source_files@.len(),
    ensures
        ({
            let rel = before.source_files@[before.src_cursor as int]@;
            let was = before.selected_source matches Some(s) && components(s@) == components(rel);
            &&& was ==> after.selected_source is None
            &&& !was ==> bytes_in(after.selected_source) == Some(rel)
            &&& after.mappings == before.mappings
            &&& after.selected_targets == before.selected_targets
        }),
{
}

/// Saving needs a source and targets; it then maps the selected targets, in order, and
/// lets go of them, and of the source where one was mapped.
pub proof fn law_enter_saves_the_selection(before: MapApp, after: MapApp)
    requires
        mapping_saved(before, after),
    ensures
        before.selected_source is None || before.selected_targets@.len() == 0 ==> after.mappings
            == before.mappings && after.status_is_error,
        before.selected_source is Some && before.selected_targets@.len() > 0
            ==> after.selected_targets@.len() == 0 && exists|order: Seq<Seq<u8>>|
            {
                &&& #[trigger] is_sorted_form(order, path_bytes(before.selected_targets@))
                &&& links(after.mappings@) == saved(
                    links(before.mappings@),
                    before.selected_source->0@,
                    order,
                ).maps
            },
{
    if before.selected_source is Some && before.selected_targets@.len() > 0 {
        let order = choose|order: Seq<Seq<u8>>| #[trigger]
            is_sorted_form(order, path_bytes(before.selected_targets@)) && saved_in_order(
                before,
                after,
                order,
            );
        assert(is_sorted_form(order, path_bytes(before.selected_targets@)));
    }
}

/// The list of available files has a row for each destination folder, and one for each of
/// its files that is not mapped just where the folder is open.
pub proof fn law_open_folders_show_their_files(a: MapApp, n: int, r: usize, f: usize)
    requires
        0 <= n <= a.dest_roots@.len() <= usize::MAX,
        a.dest_files@.len() <= usize::MAX,
        r < n,
        f < a.dest_files@.len(),
        a.dest_files@[f as int].root_idx == r,
    ensures
        avail_rows(a, n).contains(AvailRow::Folder(r)),
        avail_rows(a, n).contains(AvailRow::File(f)) <==> a.dest_open@.contains(r)
            && is_available(a, f as int),
{
    lemma_avail_folder(a, n, r);
    lemma_avail_file(a, n, f);
}

proof fn lemma_rows_push(s: Seq<AvailRow>, x: AvailRow)
    ensures
        forall|y: AvailRow| #[trigger] s.push(x).contains(y) <==> s.contains(y) || y == x,
{
    assert forall|y: AvailRow| #[trigger] s.push(x).contains(y) <==> s.contains(y) || y == x by {
        if s.contains(y) {
            let k = choose|k: int| 0 <= k < s.len() && s[k] == y;
            assert(s.push(x)[k] == y);
        }
        if s.push(x).contains(y) {
            let k = choose|k: int| 0 <= k < s.push(x).len() && s.push(x)[k] == y;
            if k < s.len() {
                assert(s[k] == y);
            }
        }
        assert(s.push(x)[s.len() as int] == x);
    }
}

proof fn lemma_rows_add(s: Seq<AvailRow>, t: Seq<AvailRow>)
    ensures
        forall|y: AvailRow| #[trigger] (s + t).contains(y) <==> s.contains(y) || t.contains(y),
{
    assert forall|y: AvailRow| #[trigger] (s + t).contains(y) <==> s.contains(y) || t.contains(
        y,
    ) by {
        if s.contains(y) {
            let k = choose|k: int| 0 <= k < s.len() && s[k] == y;
            assert((s + t)[k] == y);
        }
        if t.contains(y) {
            let k = choose|k: int| 0 <= k < t.len() && t[k] == y;
            assert((s + t)[s.len() + k] == y);
        }
        if (s + t).contains(y) {
            let k = choose|k: int| 0 <= k < (s + t).len() && (s + t)[k] == y;
            if k < s.len() {
                assert(s[k] == y);
            } else {
                assert(t[k - s.len()] == y);
            }
        }
    }
}

proof fn lemma_file_rows(a: MapApp, r: usize, n: int, x: AvailRow)
    requires
        0 <= n <= a.dest_files@.len() <= usize::MAX,
    ensures
        file_rows(a, r, n).contains(x) <==> (x matches AvailRow::File(f) && f < n
            && a.dest_files@[f as int].root_idx == r && is_available(a, f as int)),
    decreases n,
{
    if n > 0 {
        lemma_file_rows(a, r, n - 1, x);
        lemma_rows_push(file_rows(a, r, n - 1), AvailRow::File((n - 1) as usize));
    }
}

proof fn lemma_avail_folder(a: MapApp, n: int, r: usize)
    requires
        0 <= n <= a.dest_roots@.len() <= usize::MAX,
        a.dest_files@.len() <= usize::MAX,
        r < n,
    ensures
        avail_rows(a, n).contains(AvailRow::Folder(r)),
    decreases n,
{
    let rest = avail_rows(a, n - 1);
    let x = AvailRow::Folder((n - 1) as usize);
    lemma_rows_push(rest, x);
    lemma_rows_add(rest.push(x), file_rows(a, (n - 1) as usize, a.dest_files@.len() as int));
    if r < n - 1 {
        lemma_avail_folder(a, n - 1, r);
    }
}

proof fn lemma_avail_file(a: MapApp, n: int, f: usize)
    requires
        0 <= n <= a.dest_roots@.len() <= usize::MAX,
        f < a.dest_files@.len() <= usize::MAX,
    ensures
        avail_rows(a, n).contains(AvailRow::File(f)) <==> a.dest_files@[f as int].root_idx < n
            && a.dest_open@.contains(a.dest_files@[f as int].root_idx) && is_available(
            a,
            f as int,
        ),
    decreases n,
{
    if n > 0 {
        let rest = avail_rows(a, n - 1);
        let x = AvailRow::Folder((n - 1) as usize);
        let mine = file_rows(a, (n - 1) as usize, a.dest_files@.len() as int);
        lemma_avail_file(a, n - 1, f);
        lemma_rows_push(rest, x);
        lemma_rows_add(rest.push(x), mine);
        lemma_file_rows(a, (n - 1) as usize, a.dest_files@.len() as int, AvailRow::File(f));
    }
}

/// Space on an available file selects it, or lets go of it where it is selected, and
/// leaves the other selected files as they are; on a folder it opens or closes it.
pub proof fn law_space_selects_targets(before: MapApp, after: MapApp)
    requires
        available_activated(before, after),
        before.dest_cursor < avail_rows(before, before.dest_roots@.len() as int).len(),
    ensures
        ({
            let row = avail_rows(before, before.dest_roots@.len() as int)[before.dest_cursor as int];
            let old_ones = path_bytes(before.selected_targets@);
            let new_ones = path_bytes(after.selected_targets@);
            &&& after.mappings == before.mappings
            &&& after.selected_source == before.selected_source
            &&& row matches AvailRow::File(f) ==> {
                let abs = before.dest_files@[f as int].abs@;
                let was = exists|i: int|
                    0 <= i < old_ones.len() && components(#[trigger] old_ones[i]) == components(
                        abs,
                    );
                &&& was ==> new_ones == old_ones.filter(
                    |t: Seq<u8>| components(t) != components(abs),
                )
                &&& !was ==> new_ones == old_ones.push(abs)
            }
            &&& row matches AvailRow::Folder(r) ==> new_ones == old_ones && (
            before.dest_open@.contains(r) <==> !after.dest_open@.contains(r))
        }),
{
    let row = avail_rows(before, before.dest_roots@.len() as int)[before.dest_cursor as int];
    let chosen = path_bytes(before.selected_targets@);
    match row {
        AvailRow::File(f) => {
            let abs = before.dest_files@[f as int].abs@;
            crate::ui::browser::lemma_find_path(chosen, abs);
            lemma_without_is_filter(chosen, abs);
            if find_path(chosen, abs) is Some {
                let i = find_path(chosen, abs)->0;
                assert(components(chosen[i]) == components(abs));
            } else {
                assert forall|i: int| 0 <= i < chosen.len() implies components(
                    #[trigger] chosen[i],
                ) != components(abs) by {
                    assert(!same_path(chosen[i], abs));
                }
            }
        },
        AvailRow::Folder(r) => {
            lemma_without_index(before.dest_open@, r);
            let p = before.dest_open@.push(r);
            assert(p[before.dest_open@.len() as int] == r);
        },
    }
}

proof fn lemma_without_index(s: Seq<usize>, n: usize)
    ensures
        !without_index(s, n).contains(n),
    decreases s.len(),
{
    if s.len() > 0 {
        let r = without_index(s.drop_last(), n);
        lemma_without_index(s.drop_last(), n);
        if r.push(s.last()).contains(n) && s.last() != n {
            let k = choose|k: int| 0 <= k < r.push(s.last()).len() && r.push(s.last())[k] == n;
            assert(r[k] == n);
        }
    }
}

/// In the list of mapped files Space and d unmap the one that is highlighted.
pub proof fn law_the_highlighted_file_is_unmapped(before: MapApp, after: MapApp)
    requires
        unmapped_at_cursor(before, after),
        before.dest_cursor < assigned(links(before.mappings@)).len(),
    ensures
        links(after.mappings@) == without_target(
            links(before.mappings@),
            assigned(links(before.mappings@))[before.dest_cursor as int].target,
        ),
        !is_mapped(
            links(after.mappings@),
            assigned(links(before.mappings@))[before.dest_cursor as int].target,
        ),
{
    law_unmapping_unmaps(
        links(before.mappings@),
        assigned(links(before.mappings@))[before.dest_cursor as int].target,
    );
}

/// What the keys of the summary and of the exit dialog do: Enter and y ask for the sync, q
/// and Esc go back; in the dialog y, or Enter on the button that confirms, leaves.
pub proof fn law_summary_and_exit_keys(
    before: MapApp,
    key: Key,
    after: MapApp,
    effect: MapEffect,
)
    requires
        keyed(before, key, after, effect),
        !before.done,
    ensures
        before.exit_prompt is None && before.screen == Screen::Summary ==> {
            &&& (key == Key::Enter || key == Key::Char('y')) && (forall|i: int|
                0 <= i < before.issues@.len() ==> (#[trigger] before.issues@[i])@ is SourceMissing)
                && (before.plan matches Some(p) && p.stats.created + p.stats.updated > 0)
                ==> effect == MapEffect::Apply
            &&& key == Key::Esc || key == Key::Char('q') ==> after.screen == Screen::Page
            &&& after.mappings == before.mappings && after.plan == before.plan
        },
        before.exit_prompt is Some ==> {
            &&& after.done <==> key == Key::Char('y') || (key == Key::Enter && before.exit_prompt
                == Some(ExitChoice::Confirm))
            &&& effect == MapEffect::Nothing
            &&& after.mappings == before.mappings
        },
        before.exit_prompt is None && (before.screen == Screen::Done || before.screen
            == Screen::Error) ==> (after.screen == Screen::Page <==> key == Key::Enter || key
            == Key::Char('q') || key == Key::Esc) && after.mappings == before.mappings,
{
    if before.exit_prompt is None && before.screen == Screen::Summary && (key == Key::Enter || key
        == Key::Char('y')) {
        law_syncs_start_when_they_may(before, after, effect);
    }
}

/// Reading the folders again takes over their files and keeps the mappings; the selected
/// source and targets stay where they are still there.
pub proof fn law_reloading_takes_over_the_files(
    before: MapApp,
    after: MapApp,
    source: Seq<FileSize>,
    dests: Seq<Vec<FileSize>>,
)
    requires
        reloaded(before, after, source, dests),
    ensures
        after.mappings == before.mappings,
        path_bytes(after.source_files@) == source.map_values(|f: FileSize| f.rel@),
        dest_view_of(after.dest_files@) == all_dest_files(
            before.dest_roots@,
            dests,
            before.dest_roots@.len() as int,
        ),
        before.selected_source is None ==> after.selected_source is None,
        before.selected_source matches Some(s) ==> (after.selected_source == Some(s) <==> exists|
            i: int,
        |
            0 <= i < source.len() && components((#[trigger] source[i]).rel@) == components(s@)),
        path_bytes(after.selected_targets@) == path_bytes(before.selected_targets@).filter(
            |p: Seq<u8>|
                exists|i: int|
                    0 <= i < abs_paths(after.dest_files@).len() && components(
                        #[trigger] abs_paths(after.dest_files@)[i],
                    ) == components(p),
        ),
{
    law_reloading_keeps_what_is_there(
        path_bytes(before.selected_targets@),
        abs_paths(after.dest_files@),
    );
    if before.selected_source is Some {
        let s = before.selected_source->0@;
        let all = rels(source);
        crate::ui::browser::lemma_find_path(all, s);
        match find_path(all, s) {
            Some(i) => {
                assert(components(source[i].rel@) == components(s));
            },
            None => {
                assert forall|i: int| 0 <= i < source.len() implies components(
                    (#[trigger] source[i]).rel@,
                ) != components(s) by {
                    assert(!same_path(all[i], s));
                }
            },
        }
    }
}

proof fn lemma_in_order(a: Seq<u8>, b: Seq<u8>, c: Seq<u8>)
    ensures
        path_order(a, b) != Order::Greater && path_order(b, c) != Order::Greater ==> path_order(
            a,
            c,
        ) != Order::Greater,
        path_order(a, b) == Order::Greater ==> path_order(b, a) == Order::Less,
{
    lemma_key_order(components(a), components(b));
    lemma_key_order(components(b), components(c));
    lemma_key_order(components(a), components(c));
    if path_order(a, b) == Order::Less && path_order(b, c) == Order::Less {
        lemma_key_order_transitive(components(a), components(b), components(c));
    }
}

/// Whether files come in order of location.
pub open spec fn sized_in_order(s: Seq<FileInfo>) -> bool {
    forall|i: int, j: int|
        #![trigger s[i], s[j]]
        0 <= i < j < s.len() ==> path_order(s[i].rel, s[j].rel) != Order::Greater
}

/// Whether mapped files come in order of the files.
pub open spec fn pairs_in_order(s: Seq<PairModel>) -> bool {
    forall|i: int, j: int|
        #![trigger s[i], s[j]]
        0 <= i < j < s.len() ==> path_order(s[i].target, s[j].target) != Order::Greater
}

proof fn lemma_sized_stays(s: Seq<FileInfo>, f: FileInfo)
    requires
        sized_in_order(s),
    ensures
        sized_in_order(with_sized(s, f)),
        forall|i: int|
            #![trigger with_sized(s, f)[i]]
            0 <= i < with_sized(s, f).len() ==> s.contains(with_sized(s, f)[i]) || with_sized(
                s,
                f,
            )[i] == f,
    decreases s.len(),
{
    let out = with_sized(s, f);
    if s.len() == 0 || path_order(s.last().rel, f.rel) != Order::Greater {
        assert forall|i: int, j: int|
            #![trigger out[i], out[j]]
            0 <= i < j < out.len() implies path_order(out[i].rel, out[j].rel) != Order::Greater by {
            if j == s.len() && i < s.len() - 1 {
                assert(path_order(s[i].rel, s[s.len() - 1].rel) != Order::Greater);
                lemma_in_order(s[i].rel, s.last().rel, f.rel);
            } else if j < s.len() {
                assert(out[i] == s[i] && out[j] == s[j]);
            }
        }
        assert forall|i: int| #![trigger out[i]] 0 <= i < out.len() implies s.contains(out[i])
            || out[i] == f by {
            if i < s.len() {
                assert(s[i] == out[i]);
            }
        }
    } else {
        let r = s.drop_last();
        let x = s.last();
        assert(s[s.len() - 1] == x);
        assert forall|i: int, j: int|
            #![trigger r[i], r[j]]
            0 <= i < j < r.len() implies path_order(r[i].rel, r[j].rel) != Order::Greater by {
            assert(r[i] == s[i] && r[j] == s[j]);
        }
        lemma_sized_stays(r, f);
        let o = with_sized(r, f);
        lemma_in_order(x.rel, f.rel, x.rel);
        assert forall|i: int, j: int|
            #![trigger out[i], out[j]]
            0 <= i < j < out.len() implies path_order(out[i].rel, out[j].rel) != Order::Greater by {
            if j == o.len() {
                assert(out[i] == o[i] && out[j] == x);
                if o[i] != f {
                    let k = choose|k: int| 0 <= k < r.len() && r[k] == o[i];
                    assert(s[k] == o[i]);
                }
            } else {
                assert(out[i] == o[i] && out[j] == o[j]);
            }
        }
        assert forall|i: int| #![trigger out[i]] 0 <= i < out.len() implies s.contains(out[i])
            || out[i] == f by {
            if i < o.len() {
                assert(out[i] == o[i]);
                if o[i] != f {
                    let k = choose|k: int| 0 <= k < r.len() && r[k] == o[i];
                    assert(s[k] == o[i]);
                }
            } else {
                assert(s[s.len() - 1] == out[i]);
            }
        }
    }
}

/// The files of a folder are listed in order of location.
pub proof fn law_listed_files_are_in_order(root: Seq<u8>, found: Seq<Found>)
    ensures
        sized_in_order(files_below(root, found)),
    decreases found.len(),
{
    if found.len() > 0 {
        law_listed_files_are_in_order(root, found.drop_last());
        let f = found.last();
        if stripped(f.path@, root) is Some {
            lemma_sized_stays(
                files_below(root, found.drop_last()),
                FileInfo { rel: stripped(f.path@, root)->0, size: f.len },
            );
        }
    }
}

proof fn lemma_pair_stays(s: Seq<PairModel>, p: PairModel)
    requires
        pairs_in_order(s),
    ensures
        pairs_in_order(with_pair(s, p)),
    decreases s.len(),
{
    let out = with_pair(s, p);
    if s.len() == 0 || path_order(s.last().target, p.target) != Order::Greater {
        assert forall|i: int, j: int|
            #![trigger out[i], out[j]]
            0 <= i < j < out.len() implies path_order(out[i].target, out[j].target)
            != Order::Greater by {
            if j == s.len() && i < s.len() - 1 {
                assert(path_order(s[i].target, s[s.len() - 1].target) != Order::Greater);
                lemma_in_order(s[i].target, s.last().target, p.target);
            } else if j < s.len() {
                assert(out[i] == s[i] && out[j] == s[j]);
            }
        }
    } else {
        let r = s.drop_last();
        let x = s.last();
        assert(s[s.len() - 1] == x);
        assert forall|i: int, j: int|
            #![trigger r[i], r[j]]
            0 <= i < j < r.len() implies path_order(r[i].target, r[j].target)
            != Order::Greater by {
            assert(r[i] == s[i] && r[j] == s[j]);
        }
        lemma_pair_stays(r, p);
        lemma_with_pair(r, p);
        let o = with_pair(r, p);
        lemma_in_order(x.target, p.target, x.target);
        assert forall|i: int, j: int|
            #![trigger out[i], out[j]]
            0 <= i < j < out.len() implies path_order(out[i].target, out[j].target)
            != Order::Greater by {
            if j == o.len() {
                assert(out[i] == o[i] && out[j] == x);
                assert(o.contains(o[i]));
                if o[i] != p {
                    let k = choose|k: int| 0 <= k < r.len() && r[k] == o[i];
                    assert(s[k] == o[i]);
                }
            } else {
                assert(out[i] == o[i] && out[j] == o[j]);
            }
        }
    }
}

proof fn lemma_pairs_stay(s: Seq<PairModel>, source: Seq<u8>, targets: Seq<Seq<u8>>)
    requires
        pairs_in_order(s),
    ensures
        pairs_in_order(with_pairs(s, source, targets)),
    decreases targets.len(),
{
    if targets.len() > 0 {
        lemma_pairs_stay(s, source, targets.drop_last());
        lemma_pair_stays(
            with_pairs(s, source, targets.drop_last()),
            PairModel { source_rel: source, target: targets.last() },
        );
    }
}

/// The mapped files are shown in order of the files.
pub proof fn law_assigned_files_are_in_order(maps: Seq<Link>)
    ensures
        pairs_in_order(assigned(maps)),
    decreases maps.len(),
{
    if maps.len() > 0 {
        law_assigned_files_are_in_order(maps.drop_last());
        lemma_pairs_stay(assigned(maps.drop_last()), maps.last().source_rel, maps.last().targets);
    }
}

/// Cursors stay on a row while there is one, and move by one row at a time.
pub proof fn law_cursors_stay_on_rows(cursor: usize, n: nat)
    requires
        n <= usize::MAX,
    ensures
        n > 0 ==> held(cursor as int, n) < n,
        cursor < n ==> held(cursor as int, n) == cursor,
        n == 0 ==> held(cursor as int, n) == 0,
        cursor > 0 ==> raised(cursor) == cursor - 1,
        raised(0) == 0,
{
}

/// The panes come in turn, in either direction.
pub proof fn law_panes_come_in_turn(p: Pane)
    ensures
        Pane::Sources.following() == Pane::Destinations,
        Pane::Destinations.following() == Pane::Info,
        p.following().following().following() == p,
        p.following().preceding() == p,
        p.preceding().following() == p,
{
}

} // verus!
