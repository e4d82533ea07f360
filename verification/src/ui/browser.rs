//! The home screen: two panes, actions on top and an accordion of what has been chosen
//! below, and a folder browser that takes over the whole screen to pick a folder.
//!
//! Picking is in place: `Space` chooses the highlighted folder. The source is a single
//! pick; destinations are selected and deselected until `Esc` goes back.

use vstd::prelude::*;
use vstd::string::*;

use crate::path::{components, is_within, parent_of, path_bytes, same_path, PathBuf};
use crate::resolve::{bytes_in, canonical_of, Place, Resolver};
use crate::store::{copy_paths, links, Config, Mapping};
use crate::text::{self, decimal};
use crate::ui::groups::{group_mappings, grouped};
use crate::ui::keys::Key;

verus! {

/// Which top-level mode the screen is in.
#[derive(Debug, Clone, Copy, PartialEq, Eq, Structural)]
pub enum Mode {
    /// The two-pane view.
    Main,
    /// The folder browser, picking for the given role.
    Browsing(PickTarget),
}

/// What a folder pick applies to.
#[derive(Debug, Clone, Copy, PartialEq, Eq, Structural)]
pub enum PickTarget {
    Source,
    Destination,
}

/// Which pane of the main view has focus.
#[derive(Debug, Clone, Copy, PartialEq, Eq, Structural)]
pub enum MainFocus {
    Actions,
    Info,
}

/// Which button of the quit dialog has focus.
#[derive(Debug, Clone, Copy, PartialEq, Eq, Structural)]
pub enum QuitChoice {
    Confirm,
    Cancel,
}

/// A selectable row of the info pane.
#[derive(Debug, Clone, Copy, PartialEq, Eq, Structural)]
pub enum InfoTarget {
    /// The header of the destination list.
    DestHeader,
    /// One destination.
    Dest(usize),
    /// A group of mapped files inside the expanded destination.
    Folder(usize),
}

/// How the home ended.
#[derive(Debug, Clone, Copy, PartialEq, Eq, Structural)]
pub enum Outcome {
    /// Run a sync.
    Confirmed,
    /// Open the file mappings.
    OpenMappings,
    /// Run a backup.
    OpenBackup,
    /// Leave.
    Cancelled,
}

/// What the user asked for when the home screen returned.
#[derive(Debug, Clone, Copy, PartialEq, Eq, Structural)]
pub enum HomeIntent {
    /// Mirror the source.
    Sync,
    /// Open the file mappings.
    Mappings,
    /// Back the source up.
    Backup,
    /// Close the home.
    Quit,
}

/// How a folder conflicts with the source.
#[derive(Debug, Clone, Copy, PartialEq, Eq, Structural)]
pub enum Conflict {
    IsSource,
    Inside,
    Contains,
}

impl MainFocus {
    /// The other pane.
    pub open spec fn other(self) -> MainFocus {
        match self {
            MainFocus::Actions => MainFocus::Info,
            MainFocus::Info => MainFocus::Actions,
        }
    }

    /// The other pane.
    pub fn next(self) -> (res: MainFocus)
        ensures
            res == self.other(),
    {
        match self {
            MainFocus::Actions => MainFocus::Info,
            MainFocus::Info => MainFocus::Actions,
        }
    }
}

impl QuitChoice {
    /// The other button.
    pub open spec fn other(self) -> QuitChoice {
        match self {
            QuitChoice::Confirm => QuitChoice::Cancel,
            QuitChoice::Cancel => QuitChoice::Confirm,
        }
    }

    /// The other button.
    pub fn toggle(self) -> (res: QuitChoice)
        ensures
            res == self.other(),
    {
        match self {
            QuitChoice::Confirm => QuitChoice::Cancel,
            QuitChoice::Cancel => QuitChoice::Confirm,
        }
    }
}

/// The intent that an outcome stands for.
pub open spec fn intent(outcome: Outcome) -> HomeIntent {
    match outcome {
        Outcome::Confirmed => HomeIntent::Sync,
        Outcome::OpenMappings => HomeIntent::Mappings,
        Outcome::OpenBackup => HomeIntent::Backup,
        Outcome::Cancelled => HomeIntent::Quit,
    }
}

/// The intent that an outcome stands for.
pub fn intent_of(outcome: Outcome) -> (res: HomeIntent)
    ensures
        res == intent(outcome),
{
    match outcome {
        Outcome::Confirmed => HomeIntent::Sync,
        Outcome::OpenMappings => HomeIntent::Mappings,
        Outcome::OpenBackup => HomeIntent::Backup,
        Outcome::Cancelled => HomeIntent::Quit,
    }
}

// --- Conflicts -------------------------------------------------------------

/// How `cand` conflicts with the source `src`, if it does.
pub open spec fn conflict(cand: Seq<u8>, src: Seq<u8>) -> Option<Conflict> {
    if same_path(cand, src) {
        Some(Conflict::IsSource)
    } else if is_within(cand, src) {
        Some(Conflict::Inside)
    } else if is_within(src, cand) {
        Some(Conflict::Contains)
    } else {
        None
    }
}

/// Whether writing into `cand` could reach the source `src`, and how.
pub fn source_conflict(cand: &PathBuf, src: &PathBuf) -> (res: Option<Conflict>)
    ensures
        res == conflict(cand@, src@),
{
    if cand.same(src) {
        Some(Conflict::IsSource)
    } else if cand.starts_with(src) {
        Some(Conflict::Inside)
    } else if src.starts_with(cand) {
        Some(Conflict::Contains)
    } else {
        None
    }
}

/// Why a folder that conflicts with the source cannot be a destination.
pub open spec fn reason_text(why: Conflict) -> Seq<char> {
    match why {
        Conflict::IsSource => "That's the source folder — it can't be a destination."@,
        Conflict::Inside => "That folder is inside the source — pick one outside it."@,
        Conflict::Contains => "That folder contains the source — pick one that doesn't."@,
    }
}

/// Why a folder that conflicts with the source cannot be a destination.
pub fn conflict_reason(why: Conflict) -> (res: &'static str)
    ensures
        res@ == reason_text(why),
{
    match why {
        Conflict::IsSource => "That's the source folder — it can't be a destination.",
        Conflict::Inside => "That folder is inside the source — pick one outside it.",
        Conflict::Contains => "That folder contains the source — pick one that doesn't.",
    }
}

// --- State -----------------------------------------------------------------

/// Rows of the actions pane: source, destination, sync, map files, backup.
pub const ACTION_COUNT: usize = 5;

/// The home screen's state.
#[derive(Debug)]
pub struct Browser {
    pub mode: Mode,
    pub main_focus: MainFocus,
    /// The highlighted action.
    pub actions_sel: usize,
    /// Whether the destination list is revealed.
    pub info_dest_list_open: bool,
    /// Which destination is expanded, if any.
    pub info_dest_expanded: Option<usize>,
    /// Which group of the expanded destination is open, if any.
    pub info_folder_expanded: Option<usize>,
    /// The highlighted selectable row of the info pane.
    pub info_sel: usize,
    pub source: Option<PathBuf>,
    pub destinations: Vec<PathBuf>,
    pub mappings: Vec<Mapping>,
    /// The folder in which the run was started.
    pub root: PathBuf,
    /// The folder whose subfolders are listed.
    pub cwd: PathBuf,
    pub entries: Vec<PathBuf>,
    /// The highlighted entry.
    pub browse_sel: Option<usize>,
    /// The folder to highlight once the listing is there.
    pub came_from: Option<PathBuf>,
    pub show_help: bool,
    /// The focused button of the quit dialog, while that is open.
    pub quit_prompt: Option<QuitChoice>,
    pub status: String,
    pub status_is_error: bool,
    /// The result of the most recent run, if any.
    pub last_run: Option<String>,
    pub outcome: Option<Outcome>,
}

/// Whether `after` is `before` with a new status.
pub open spec fn told(before: Browser, after: Browser, msg: Seq<char>, error: bool) -> bool {
    &&& after == (Browser { status: after.status, status_is_error: error, ..before })
    &&& after.status@ == msg
}

/// The folder that a pick acts on: the highlighted one, or else the folder itself.
pub open spec fn target_of(b: Browser) -> Seq<u8> {
    match b.browse_sel {
        Some(i) => if i < b.entries@.len() {
            b.entries@[i as int]@
        } else {
            b.cwd@
        },
        None => b.cwd@,
    }
}

/// Whether `after` is `before` in another folder, waiting for its listing.
pub open spec fn moved(before: Browser, after: Browser, dir: Seq<u8>, from: Option<Seq<u8>>) -> bool {
    &&& after == (Browser {
        cwd: after.cwd,
        entries: after.entries,
        browse_sel: None,
        came_from: after.came_from,
        ..before
    })
    &&& after.cwd@ == dir
    &&& after.entries@.len() == 0
    &&& bytes_in(after.came_from) == from
}

/// The position of a path in a list, if it is there.
pub open spec fn find_path(s: Seq<Seq<u8>>, p: Seq<u8>) -> Option<int>
    decreases s.len(),
{
    if s.len() == 0 {
        None
    } else {
        match find_path(s.drop_last(), p) {
            Some(i) => Some(i),
            None => if same_path(s.last(), p) {
                Some(s.len() - 1)
            } else {
                None
            },
        }
    }
}

/// The position of `p` in `paths`, if it is there.
pub fn position_of(paths: &Vec<PathBuf>, p: &PathBuf) -> (res: Option<usize>)
    ensures
        match res {
            Some(i) => find_path(path_bytes(paths@), p@) == Some(i as int) && i < paths@.len(),
            None => find_path(path_bytes(paths@), p@) is None,
        },
{
    let ghost all = path_bytes(paths@);
    for i in 0..paths.len()
        invariant
            all == path_bytes(paths@),
            find_path(all.take(i as int), p@) is None,
    {
        assert(all.take(i + 1).drop_last() =~= all.take(i as int));
        assert(all.take(i + 1).last() == paths@[i as int]@);
        if paths[i].same(p) {
            proof {
                lemma_find_path_take(all, p@, i + 1);
            }
            return Some(i);
        }
    }
    assert(all.take(paths@.len() as int) =~= all);
    None
}

proof fn lemma_find_path_take(s: Seq<Seq<u8>>, p: Seq<u8>, i: int)
    requires
        0 <= i <= s.len(),
        find_path(s.take(i), p) is Some,
    ensures
        find_path(s, p) == find_path(s.take(i), p),
    decreases s.len(),
{
    if i == s.len() {
        assert(s.take(i) =~= s);
    } else {
        assert(s.drop_last().take(i) =~= s.take(i));
        lemma_find_path_take(s.drop_last(), p, i);
    }
}

/// A position found is that of the path, the first that is.
pub proof fn lemma_find_path(s: Seq<Seq<u8>>, p: Seq<u8>)
    ensures
        match find_path(s, p) {
            Some(i) => 0 <= i < s.len() && same_path(s[i], p),
            None => forall|j: int| 0 <= j < s.len() ==> !same_path(#[trigger] s[j], p),
        },
    decreases s.len(),
{
    if s.len() > 0 {
        lemma_find_path(s.drop_last(), p);
        if find_path(s, p) is None {
            assert forall|j: int| 0 <= j < s.len() implies !same_path(#[trigger] s[j], p) by {
                if j < s.len() - 1 {
                    assert(s[j] == s.drop_last()[j]);
                }
            }
        }
    }
}

/// The destinations that do not conflict with a source.
pub open spec fn safe_from(s: Seq<Seq<u8>>, src: Seq<u8>) -> Seq<Seq<u8>>
    decreases s.len(),
{
    if s.len() == 0 {
        Seq::empty()
    } else if conflict(s.last(), src) is None {
        safe_from(s.drop_last(), src).push(s.last())
    } else {
        safe_from(s.drop_last(), src)
    }
}

/// What choosing a source makes of the state.
pub open spec fn source_set(before: Browser, after: Browser, src: Seq<u8>) -> bool {
    let kept = safe_from(path_bytes(before.destinations@), src);
    let dropped = before.destinations@.len() - kept.len();
    &&& after == (Browser {
        source: after.source,
        destinations: after.destinations,
        status: after.status,
        status_is_error: dropped > 0,
        ..before
    })
    &&& bytes_in(after.source) == Some(src)
    &&& path_bytes(after.destinations@) == kept
    &&& after.status@ == if dropped > 0 {
        "Source set — dropped "@ + decimal(dropped as nat)
            + " destination(s) that overlapped it."@
    } else {
        "Source set. Now add one or more destinations."@
    }
}

/// Why a folder is refused as a destination, if it is.
pub open spec fn refusal(b: Browser, cand: Seq<u8>) -> Option<Seq<char>> {
    match b.source {
        None => Some("Choose a source first."@),
        Some(src) => match conflict(cand, src@) {
            Some(why) => Some(reason_text(why)),
            None => if find_path(path_bytes(b.destinations@), cand) is Some {
                Some("Already added that destination."@)
            } else {
                None
            },
        },
    }
}

/// What adding a destination makes of the state.
pub open spec fn destination_added(before: Browser, after: Browser, cand: Seq<u8>) -> bool {
    &&& after == (Browser {
        destinations: after.destinations,
        status: after.status,
        status_is_error: false,
        ..before
    })
    &&& path_bytes(after.destinations@) == path_bytes(before.destinations@).push(cand)
}

/// How a folder conflicts with the source in the destination picker, if it does.
pub open spec fn pick_conflict(b: Browser, known: Seq<Place>, p: Seq<u8>) -> Option<
    Conflict,
> {
    match b.source {
        Some(src) => conflict(canonical_of(known, p), src@),
        None => None,
    }
}

/// What toggling the picked folder as a destination makes of the state.
pub open spec fn toggled(before: Browser, known: Seq<Place>, after: Browser) -> bool {
    let pick = canonical_of(known, target_of(before));
    let all = path_bytes(before.destinations@);
    match find_path(all, pick) {
        Some(i) => {
            &&& after == (Browser {
                destinations: after.destinations,
                status: after.status,
                status_is_error: false,
                ..before
            })
            &&& path_bytes(after.destinations@) == all.remove(i)
            &&& after.status@ == "Removed destination ("@ + decimal((all.len() - 1) as nat)
                + " total). Esc when done."@
        },
        None => match pick_conflict(before, known, pick) {
            Some(why) => told(before, after, reason_text(why), false),
            None => match refusal(before, pick) {
                Some(why) => told(before, after, why, true),
                None => {
                    &&& destination_added(before, after, pick)
                    &&& after.status@ == "Added destination ("@ + decimal((all.len() + 1) as nat)
                        + " total). Space again to deselect, Esc when done."@
                },
            },
        },
    }
}

/// The configuration that has been put together, once it has a source and a
/// destination.
pub open spec fn is_ready(b: Browser) -> bool {
    b.source is Some && b.destinations@.len() > 0
}

/// What asking for an outcome that needs a source and a destination makes of the state.
pub open spec fn asked(
    before: Browser,
    after: Browser,
    outcome: Outcome,
    no_source: Seq<char>,
    no_destination: Seq<char>,
) -> bool {
    if is_ready(before) {
        after == (Browser { outcome: Some(outcome), ..before })
    } else if before.source is None {
        told(before, after, no_source, true)
    } else {
        told(before, after, no_destination, true)
    }
}

/// What asking for a sync makes of the state.
pub open spec fn sync_asked(before: Browser, after: Browser) -> bool {
    asked(
        before,
        after,
        Outcome::Confirmed,
        "Choose a source first ([s])."@,
        "Add at least one destination ([a]) before syncing."@,
    )
}

/// What asking for the file mappings makes of the state.
pub open spec fn mappings_asked(before: Browser, after: Browser) -> bool {
    asked(
        before,
        after,
        Outcome::OpenMappings,
        "Choose a source first ([s]) before mapping files."@,
        "Add at least one destination ([a]) before mapping files."@,
    )
}

/// What asking for a backup makes of the state.
pub open spec fn backup_asked(before: Browser, after: Browser) -> bool {
    if before.source is Some {
        after == (Browser { outcome: Some(Outcome::OpenBackup), ..before })
    } else {
        told(before, after, "Choose a source first ([s]) before backing up."@, true)
    }
}

/// What opening the folder browser makes of the state.
pub open spec fn browsing_opened(before: Browser, after: Browser, target: PickTarget) -> bool {
    &&& after == (Browser {
        mode: Mode::Browsing(target),
        cwd: after.cwd,
        entries: after.entries,
        browse_sel: None,
        came_from: None,
        status: after.status,
        status_is_error: false,
        ..before
    })
    &&& after.cwd@ == before.root@
    &&& after.entries@.len() == 0
    &&& after.status@ == match target {
        PickTarget::Source => "Pick the SOURCE folder — Space to choose, Esc cancels."@,
        PickTarget::Destination =>
            "Pick DESTINATION folders — Space selects, Space again deselects, Esc when done."@,
    }
}

/// What activating the highlighted action makes of the state, and which folder is to be
/// listed.
pub open spec fn activated(before: Browser, after: Browser, list: Option<Seq<u8>>) -> bool {
    if before.actions_sel == 0 {
        browsing_opened(before, after, PickTarget::Source) && list == Some(before.root@)
    } else if before.actions_sel == 1 {
        if before.source is None {
            &&& told(
                before,
                after,
                "Choose a source first — select \"Select source folder\"."@,
                true,
            )
            &&& list is None
        } else {
            browsing_opened(before, after, PickTarget::Destination) && list == Some(before.root@)
        }
    } else if before.actions_sel == 2 {
        sync_asked(before, after) && list is None
    } else if before.actions_sel == 3 {
        mappings_asked(before, after) && list is None
    } else {
        backup_asked(before, after) && list is None
    }
}

// --- Accordion -------------------------------------------------------------

/// How many groups of mapped files a destination has.
pub open spec fn group_count(b: Browser, known: Seq<Place>, i: int) -> nat {
    grouped(links(b.mappings@), canonical_of(known, b.destinations@[i]@)).len()
}

/// The selectable rows for the first `n` destinations.
pub open spec fn dest_targets(b: Browser, known: Seq<Place>, n: int) -> Seq<
    InfoTarget,
>
    decreases n,
{
    if n <= 0 {
        Seq::empty()
    } else {
        let rest = dest_targets(b, known, n - 1).push(InfoTarget::Dest((n - 1) as usize));
        if b.info_dest_expanded == Some((n - 1) as usize) {
            rest + Seq::new(group_count(b, known, n - 1), |k: int| InfoTarget::Folder(k as usize))
        } else {
            rest
        }
    }
}

/// The selectable rows of the info pane, top to bottom.
pub open spec fn targets_of(b: Browser, known: Seq<Place>) -> Seq<InfoTarget> {
    if b.info_dest_list_open {
        seq![InfoTarget::DestHeader] + dest_targets(b, known, b.destinations@.len() as int)
    } else {
        seq![InfoTarget::DestHeader]
    }
}

/// What `Enter` in the info pane makes of the state.
pub open spec fn entered(before: Browser, known: Seq<Place>, after: Browser) -> bool {
    let targets = targets_of(before, known);
    if before.info_sel >= targets.len() {
        after == before
    } else {
        match targets[before.info_sel as int] {
            InfoTarget::DestHeader => after == if before.info_dest_list_open {
                Browser {
                    info_dest_list_open: false,
                    info_dest_expanded: None,
                    info_folder_expanded: None,
                    info_sel: 0,
                    ..before
                }
            } else {
                Browser { info_dest_list_open: true, ..before }
            },
            InfoTarget::Dest(i) => after == (Browser {
                info_dest_expanded: if before.info_dest_expanded == Some(i) {
                    None
                } else {
                    Some(i)
                },
                info_folder_expanded: None,
                ..before
            }),
            InfoTarget::Folder(k) => after == (Browser {
                info_folder_expanded: if before.info_folder_expanded == Some(k) {
                    None
                } else {
                    Some(k)
                },
                ..before
            }),
        }
    }
}

/// What going back in the info pane makes of the state.
pub open spec fn backed(before: Browser, after: Browser) -> bool {
    if before.info_folder_expanded is Some {
        after == (Browser { info_folder_expanded: None, ..before })
    } else if before.info_dest_expanded is Some {
        after == (Browser { info_dest_expanded: None, ..before })
    } else if before.info_dest_list_open {
        after == (Browser { info_dest_list_open: false, info_sel: 0, ..before })
    } else {
        after == before
    }
}

/// The accordion with no index past the end of what it points into.
pub open spec fn clamped(before: Browser, known: Seq<Place>, after: Browser) -> bool {
    let open = match before.info_dest_expanded {
        Some(i) => if i >= before.destinations@.len() {
            None
        } else {
            Some(i)
        },
        None => None,
    };
    let groups = match open {
        Some(i) => group_count(before, known, i as int),
        None => 0,
    };
    let folder = match before.info_folder_expanded {
        Some(k) => if k >= groups {
            None
        } else {
            Some(k)
        },
        None => None,
    };
    let mid = Browser { info_dest_expanded: open, info_folder_expanded: folder, ..before };
    let last = targets_of(mid, known).len() - 1;
    after == (Browser {
        info_sel: if before.info_sel < last {
            before.info_sel
        } else {
            last as usize
        },
        ..mid
    })
}

// --- Keys ------------------------------------------------------------------

/// What a key makes of the state while the quit dialog is open.
pub open spec fn quit_keyed(before: Browser, key: Key, after: Browser) -> bool {
    let focused = match before.quit_prompt {
        Some(c) => c,
        None => QuitChoice::Cancel,
    };
    if key == Key::Left || key == Key::Right || key == Key::Char('h') || key == Key::Char('l')
        || key == Key::Tab || key == Key::BackTab {
        after == (Browser { quit_prompt: Some(focused.other()), ..before })
    } else if key == Key::Enter {
        after == (Browser {
            quit_prompt: None,
            outcome: if focused == QuitChoice::Confirm {
                Some(Outcome::Cancelled)
            } else {
                before.outcome
            },
            ..before
        })
    } else if key == Key::Char('y') {
        after == (Browser { quit_prompt: None, outcome: Some(Outcome::Cancelled), ..before })
    } else if key == Key::Char('n') || key == Key::Esc {
        after == (Browser { quit_prompt: None, ..before })
    } else {
        after == before
    }
}

/// What a key makes of the state in the two-pane view.
pub open spec fn main_keyed(
    before: Browser,
    key: Key,
    known: Seq<Place>,
    after: Browser,
    list: Option<Seq<u8>>,
) -> bool {
    let sel = before.actions_sel;
    if key == Key::Char('s') {
        activated(Browser { actions_sel: 0, ..before }, after, list)
    } else if key == Key::Char('a') {
        activated(Browser { actions_sel: 1, ..before }, after, list)
    } else if before.main_focus == MainFocus::Actions && (key == Key::Enter || key == Key::Right
        || key == Key::Char('l')) {
        activated(before, after, list)
    } else {
        &&& list is None
        &&& if key == Key::Tab || key == Key::BackTab {
            after == (Browser { main_focus: before.main_focus.other(), ..before })
        } else if key == Key::Char('c') {
            sync_asked(before, after)
        } else if key == Key::Char('m') {
            mappings_asked(Browser { actions_sel: 3, ..before }, after)
        } else if key == Key::Char('b') {
            backup_asked(Browser { actions_sel: 4, ..before }, after)
        } else if key == Key::Char('q') || key == Key::Esc {
            after == (Browser { quit_prompt: Some(QuitChoice::Cancel), ..before })
        } else if before.main_focus == MainFocus::Actions {
            if key == Key::Up || key == Key::Char('k') {
                after == (Browser {
                    actions_sel: (if sel == 0 {
                        0
                    } else {
                        sel - 1
                    }) as usize,
                    ..before
                })
            } else if key == Key::Down || key == Key::Char('j') {
                after == (Browser {
                    actions_sel: (if sel + 1 < ACTION_COUNT - 1 {
                        sel + 1
                    } else {
                        ACTION_COUNT - 1
                    }) as usize,
                    ..before
                })
            } else {
                after == before
            }
        } else if key == Key::Up || key == Key::Char('k') {
            after == (Browser {
                info_sel: (if before.info_sel == 0 {
                    0
                } else {
                    before.info_sel - 1
                }) as usize,
                ..before
            })
        } else if key == Key::Down || key == Key::Char('j') {
            info_lowered(before, known, after)
        } else if key == Key::Enter || key == Key::Right || key == Key::Char('l') {
            entered(before, known, after)
        } else if key == Key::Backspace || key == Key::Left || key == Key::Char('h') {
            backed(before, after)
        } else {
            after == before
        }
    }
}

/// What moving down in the info pane makes of the state.
pub open spec fn info_lowered(
    before: Browser,
    known: Seq<Place>,
    after: Browser,
) -> bool {
    let last = targets_of(before, known).len() - 1;
    after == (Browser {
        info_sel: (if before.info_sel + 1 < last {
            before.info_sel + 1
        } else {
            last
        }) as usize,
        ..before
    })
}

/// The highlighted entry one further down.
pub open spec fn lower_entry(b: Browser) -> Option<usize> {
    if b.entries@.len() == 0 {
        b.browse_sel
    } else {
        let last = b.entries@.len() - 1;
        match b.browse_sel {
            None => Some(0),
            Some(i) => Some(
                (if i + 1 < last {
                    i + 1
                } else {
                    last
                }) as usize,
            ),
        }
    }
}

/// The highlighted entry one further up.
pub open spec fn upper_entry(b: Browser) -> Option<usize> {
    if b.entries@.len() == 0 {
        b.browse_sel
    } else {
        match b.browse_sel {
            None => Some(0),
            Some(i) => Some(
                (if i == 0 {
                    0
                } else {
                    i - 1
                }) as usize,
            ),
        }
    }
}

/// What opening the highlighted folder makes of the state.
pub open spec fn descended(before: Browser, after: Browser, list: Option<Seq<u8>>) -> bool {
    match before.browse_sel {
        None => {
            &&& told(
                before,
                after,
                "No subfolders here — Space picks this folder, ← goes up."@,
                true,
            )
            &&& list is None
        },
        Some(i) => if i < before.entries@.len() {
            let dir = before.entries@[i as int]@;
            moved(before, after, dir, None) && list == Some(dir)
        } else {
            after == before && list is None
        },
    }
}

/// What going up to the parent folder makes of the state.
pub open spec fn ascended(before: Browser, after: Browser, list: Option<Seq<u8>>) -> bool {
    match parent_of(before.cwd@) {
        None => told(before, after, "Already at the filesystem root."@, true) && list is None,
        Some(parent) => moved(before, after, parent, Some(before.cwd@)) && list == Some(parent),
    }
}

/// What jumping back to the launch folder makes of the state.
pub open spec fn rooted(before: Browser, after: Browser, list: Option<Seq<u8>>) -> bool {
    if same_path(before.cwd@, before.root@) {
        told(before, after, "Already at the launch folder."@, false) && list is None
    } else {
        moved(before, after, before.root@, None) && list == Some(before.root@)
    }
}

/// What `Space` in the folder browser makes of the state.
pub open spec fn selected(before: Browser, known: Seq<Place>, after: Browser) -> bool {
    match before.mode {
        Mode::Browsing(PickTarget::Source) => exists|mid: Browser| #[trigger]
            source_set(before, mid, canonical_of(known, target_of(before))) && clamped(
                Browser { mode: Mode::Main, ..mid },
                known,
                after,
            ),
        Mode::Browsing(PickTarget::Destination) => toggled(before, known, after),
        Mode::Main => after == before,
    }
}

/// What a key makes of the state in the folder browser.
pub open spec fn browsing_keyed(
    before: Browser,
    key: Key,
    known: Seq<Place>,
    after: Browser,
    list: Option<Seq<u8>>,
) -> bool {
    if key == Key::Right || key == Key::Char('l') || key == Key::Enter {
        descended(before, after, list)
    } else if key == Key::Left || key == Key::Char('h') || key == Key::Backspace {
        ascended(before, after, list)
    } else if key == Key::Char('r') {
        rooted(before, after, list)
    } else {
        &&& list is None
        &&& if key == Key::Up || key == Key::Char('k') {
            after == (Browser { browse_sel: upper_entry(before), ..before })
        } else if key == Key::Down || key == Key::Char('j') {
            after == (Browser { browse_sel: lower_entry(before), ..before })
        } else if key == Key::Char(' ') {
            selected(before, known, after)
        } else if key == Key::Char('q') || key == Key::Esc {
            clamped(Browser { mode: Mode::Main, ..before }, known, after)
        } else {
            after == before
        }
    }
}

/// What a key makes of the state, and which folder is to be listed.
pub open spec fn keyed(
    before: Browser,
    key: Key,
    ctrl: bool,
    known: Seq<Place>,
    after: Browser,
    list: Option<Seq<u8>>,
) -> bool {
    if before.quit_prompt is Some {
        quit_keyed(before, key, after) && list is None
    } else if ctrl && key == Key::Char('q') {
        after == (Browser { show_help: !before.show_help, ..before }) && list is None
    } else if before.show_help {
        after == (Browser { show_help: false, ..before }) && list is None
    } else {
        match before.mode {
            Mode::Browsing(_) => browsing_keyed(before, key, known, after, list),
            Mode::Main => main_keyed(before, key, known, after, list),
        }
    }
}

impl Browser {
    /// Whether the highlighted rows can be counted on from.
    pub open spec fn wf(&self) -> bool {
        &&& self.browse_sel matches Some(i) ==> i < self.entries@.len()
        &&& self.actions_sel < usize::MAX
        &&& self.info_sel < usize::MAX
    }

    /// A home with nothing chosen, started in `cwd`. The listing of `cwd` is to be
    /// handed over with [`Browser::set_listing`].
    pub fn new(cwd: PathBuf) -> (res: Browser)
        ensures
            res.wf(),
            res.mode == Mode::Main,
            res.main_focus == MainFocus::Actions,
            res.actions_sel == 0,
            !res.info_dest_list_open,
            res.info_dest_expanded is None,
            res.info_folder_expanded is None,
            res.info_sel == 0,
            res.source is None,
            res.destinations@.len() == 0,
            res.mappings@.len() == 0,
            res.root@ == cwd@,
            res.cwd@ == cwd@,
            res.entries@.len() == 0,
            res.browse_sel is None,
            res.came_from is None,
            !res.show_help,
            res.quit_prompt is None,
            res.status@
                == "Choose an action above. [s] source · [a] destination · [c] sync now."@,
            !res.status_is_error,
            res.last_run is None,
            res.outcome is None,
    {
        Browser {
            mode: Mode::Main,
            main_focus: MainFocus::Actions,
            actions_sel: 0,
            info_dest_list_open: false,
            info_dest_expanded: None,
            info_folder_expanded: None,
            info_sel: 0,
            source: None,
            destinations: Vec::new(),
            mappings: Vec::new(),
            root: cwd.clone(),
            cwd,
            entries: Vec::new(),
            browse_sel: None,
            came_from: None,
            show_help: false,
            quit_prompt: None,
            status: "Choose an action above. [s] source · [a] destination · [c] sync now.".to_owned(),
            status_is_error: false,
            last_run: None,
            outcome: None,
        }
    }

    /// A home that shows a configuration, its mappings and the result of the previous
    /// run.
    pub fn home(
        cwd: PathBuf,
        initial: Option<Config>,
        mappings: Vec<Mapping>,
        last_run: Option<String>,
    ) -> (res: Browser)
        ensures
            res.wf(),
            res.mode == Mode::Main,
            res.main_focus == MainFocus::Actions,
            res.actions_sel == 0,
            !res.info_dest_list_open,
            res.info_dest_expanded is None,
            res.info_folder_expanded is None,
            res.info_sel == 0,
            res.root@ == cwd@,
            res.cwd@ == cwd@,
            res.entries@.len() == 0,
            res.browse_sel is None,
            res.came_from is None,
            !res.show_help,
            res.quit_prompt is None,
            res.status@
                == "Choose an action above. [s] source · [a] destination · [c] sync now."@,
            !res.status_is_error,
            match initial {
                Some(c) => res.source == Some(c.source) && res.destinations == c.destinations,
                None => res.source is None && res.destinations@.len() == 0,
            },
            res.mappings == mappings,
            res.last_run == last_run,
            res.outcome is None,
    {
        let mut b = Browser::new(cwd);
        if let Some(config) = initial {
            b.source = Some(config.source);
            b.destinations = config.destinations;
        }
        b.mappings = mappings;
        b.last_run = last_run;
        b
    }

    /// How many mappings have a source that exists. `is_file` says so of each.
    pub fn source_mapped(&self, is_file: &Vec<bool>) -> (res: usize)
        ensures
            res == if self.source is None {
                0
            } else {
                count_true(is_file@)
            },
    {
        if self.source.is_none() {
            return 0;
        }
        let mut n: usize = 0;
        for i in 0..is_file.len()
            invariant
                n == count_true(is_file@.take(i as int)),
                n <= i,
        {
            assert(is_file@.take(i + 1).drop_last() =~= is_file@.take(i as int));
            if is_file[i] {
                n += 1;
            }
        }
        assert(is_file@.take(is_file@.len() as int) =~= is_file@);
        n
    }

    /// How many targets of mappings lie in a destination.
    pub fn dest_mapped(&self, dir: &PathBuf, resolver: &Resolver) -> (res: usize)
        requires
            target_count(links(self.mappings@)) <= usize::MAX,
        ensures
            res == mapped_below(links(self.mappings@), canonical_of(resolver.known@, dir@)),
    {
        let root = resolver.canonical(dir);
        let ghost all = links(self.mappings@);
        let mut n: usize = 0;
        for i in 0..self.mappings.len()
            invariant
                all == links(self.mappings@),
                n == mapped_below(all.take(i as int), root@),
                n <= target_count(all.take(i as int)),
                target_count(all) <= usize::MAX,
        {
            let m = &self.mappings[i];
            let ghost targets = m@.targets;
            let ghost before = n as nat;
            proof {
                assert(all.take(i + 1).drop_last() =~= all.take(i as int));
                assert(all.take(i + 1).last() == m@);
                lemma_target_count_take(all, i + 1);
            }
            for j in 0..m.targets.len()
                invariant
                    targets == m@.targets,
                    n == before + count_below(targets.take(j as int), root@),
                    n <= before + j,
                    before + targets.len() <= usize::MAX,
            {
                assert(targets.take(j + 1).drop_last() =~= targets.take(j as int));
                assert(targets.take(j + 1).last() == m.targets@[j as int]@);
                if m.targets[j].starts_with(&root) {
                    n += 1;
                }
            }
            assert(targets.take(m.targets@.len() as int) =~= targets);
        }
        assert(all.take(self.mappings@.len() as int) =~= all);
        n
    }

    /// The configuration that has been put together, once it has a source and at least
    /// one destination.
    pub fn current_config(&self) -> (res: Option<Config>)
        ensures
            match res {
                Some(c) => {
                    &&& is_ready(*self)
                    &&& bytes_in(self.source) == Some(c.source@)
                    &&& path_bytes(c.destinations@) == path_bytes(self.destinations@)
                },
                None => !is_ready(*self),
            },
    {
        match &self.source {
            None => None,
            Some(source) => {
                if self.destinations.len() == 0 {
                    return None;
                }
                Some(
                    Config { source: source.clone(), destinations: copy_paths(&self.destinations) },
                )
            },
        }
    }

    fn info(&mut self, msg: String)
        ensures
            told(*old(self), *final(self), msg@, false),
    {
        self.status = msg;
        self.status_is_error = false;
    }

    fn error(&mut self, msg: String)
        ensures
            told(*old(self), *final(self), msg@, true),
    {
        self.status = msg;
        self.status_is_error = true;
    }

    // --- folder browser ---

    /// Take over the listing of the folder that was asked for. The folder that was left
    /// is highlighted if it is in it, else the first.
    pub fn set_listing(&mut self, entries: Vec<PathBuf>)
        requires
            old(self).wf(),
        ensures
            final(self).wf(),
            *final(self) == (Browser {
                entries,
                browse_sel: final(self).browse_sel,
                came_from: None,
                ..*old(self)
            }),
            ({
                let found = match old(self).came_from {
                    Some(from) => find_path(path_bytes(entries@), from@),
                    None => None,
                };
                match found {
                    Some(i) => final(self).browse_sel == Some(i as usize),
                    None => final(self).browse_sel == if entries@.len() > 0 {
                        Some(0usize)
                    } else {
                        None
                    },
                }
            }),
    {
        let mut sel: Option<usize> = if entries.len() > 0 {
            Some(0)
        } else {
            None
        };
        if let Some(from) = &self.came_from {
            if let Some(i) = position_of(&entries, from) {
                sel = Some(i);
            }
        }
        self.entries = entries;
        self.browse_sel = sel;
        self.came_from = None;
    }

    /// The folder that a pick acts on: the highlighted one, or the folder itself where
    /// nothing is listed.
    pub fn browse_target(&self) -> (res: PathBuf)
        ensures
            res@ == target_of(*self),
    {
        if let Some(i) = self.browse_sel {
            if i < self.entries.len() {
                return self.entries[i].clone();
            }
        }
        self.cwd.clone()
    }

    fn browse_down(&mut self)
        requires
            old(self).wf(),
        ensures
            *final(self) == (Browser { browse_sel: lower_entry(*old(self)), ..*old(self) }),
    {
        if self.entries.len() == 0 {
            return;
        }
        let last: usize = self.entries.len() - 1;
        let next: usize = match self.browse_sel {
            None => 0,
            Some(i) => if i < last {
                i + 1
            } else {
                last
            },
        };
        self.browse_sel = Some(next);
    }

    fn browse_up(&mut self)
        ensures
            *final(self) == (Browser { browse_sel: upper_entry(*old(self)), ..*old(self) }),
    {
        if self.entries.len() == 0 {
            return;
        }
        let prev: usize = match self.browse_sel {
            None => 0,
            Some(i) => if i == 0 {
                0
            } else {
                i - 1
            },
        };
        self.browse_sel = Some(prev);
    }

    fn move_to(&mut self, dir: PathBuf, from: Option<PathBuf>) -> (res: Option<PathBuf>)
        ensures
            moved(*old(self), *final(self), dir@, bytes_in(from)),
            bytes_in(res) == Some(dir@),
    {
        let list = dir.clone();
        self.cwd = dir;
        self.entries = Vec::new();
        self.browse_sel = None;
        self.came_from = from;
        Some(list)
    }

    fn browse_descend(&mut self) -> (res: Option<PathBuf>)
        ensures
            descended(*old(self), *final(self), bytes_in(res)),
    {
        match self.browse_sel {
            None => {
                self.error(
                    "No subfolders here — Space picks this folder, ← goes up.".to_owned(),
                );
                None
            },
            Some(i) => {
                if i < self.entries.len() {
                    let dir = self.entries[i].clone();
                    self.move_to(dir, None)
                } else {
                    None
                }
            },
        }
    }

    fn browse_ascend(&mut self) -> (res: Option<PathBuf>)
        ensures
            ascended(*old(self), *final(self), bytes_in(res)),
    {
        match self.cwd.parent() {
            None => {
                self.error("Already at the filesystem root.".to_owned());
                None
            },
            Some(parent) => {
                let from = self.cwd.clone();
                self.move_to(parent, Some(from))
            },
        }
    }

    /// Jump back to the launch folder; gives the folder to list.
    pub fn browse_to_root(&mut self) -> (res: Option<PathBuf>)
        ensures
            rooted(*old(self), *final(self), bytes_in(res)),
    {
        if self.cwd.same(&self.root) {
            self.info("Already at the launch folder.".to_owned());
            return None;
        }
        let dir = self.root.clone();
        self.move_to(dir, None)
    }

    /// Act on `Space`: pick the source and return, or toggle a destination and stay.
    pub fn browse_select(&mut self, resolver: &Resolver)
        requires
            old(self).wf(),
        ensures
            selected(*old(self), resolver.known@, *final(self)),
            final(self).wf(),
    {
        match self.mode {
            Mode::Browsing(PickTarget::Source) => {
                let pick = resolver.canonical(&self.browse_target());
                self.set_source(pick);
                let ghost mid = *self;
                proof {
                    assert(source_set(
                        *old(self),
                        mid,
                        canonical_of(resolver.known@, target_of(*old(self))),
                    ));
                }
                self.return_to_main(resolver);
            },
            Mode::Browsing(PickTarget::Destination) => {
                self.toggle_destination(resolver);
            },
            Mode::Main => {},
        }
    }

    /// Add the picked folder as a destination, or remove it where it is one. A folder
    /// that conflicts with the source is not an error, but is not added either.
    fn toggle_destination(&mut self, resolver: &Resolver)
        ensures
            toggled(*old(self), resolver.known@, *final(self)),
    {
        let pick = resolver.canonical(&self.browse_target());
        let ghost all = path_bytes(self.destinations@);
        if let Some(pos) = position_of(&self.destinations, &pick) {
            self.destinations.remove(pos);
            assert(path_bytes(self.destinations@) =~= all.remove(pos as int));
            let mut s = "Removed destination (".to_owned();
            s.append(text::decimal_usize(self.destinations.len()).as_str());
            s.append(" total). Esc when done.");
            self.info(s);
            return;
        }
        if let Some(why) = self.dest_conflict(&pick, resolver) {
            self.info(conflict_reason(why).to_owned());
            return;
        }
        match self.add_destination(pick) {
            Ok(()) => {
                let mut s = "Added destination (".to_owned();
                s.append(text::decimal_usize(self.destinations.len()).as_str());
                s.append(" total). Space again to deselect, Esc when done.");
                assert(self.destinations@.len() == path_bytes(self.destinations@).len());
                self.info(s);
            },
            Err(why) => {
                self.error(why);
            },
        }
    }

    /// Whether a folder is one of the destinations.
    pub fn is_destination(&self, path: &PathBuf, resolver: &Resolver) -> (res: bool)
        ensures
            res == (find_path(
                path_bytes(self.destinations@),
                canonical_of(resolver.known@, path@),
            ) is Some),
    {
        position_of(&self.destinations, &resolver.canonical(path)).is_some()
    }

    fn return_to_main(&mut self, resolver: &Resolver)
        ensures
            clamped(Browser { mode: Mode::Main, ..*old(self) }, resolver.known@, *final(self)),
            final(self).info_sel < usize::MAX,
    {
        self.mode = Mode::Main;
        self.clamp_info(resolver);
    }

    // --- choosing folders ---

    /// Choose the source. Destinations that conflict with it are dropped, so that every
    /// destination is safe from it.
    pub fn set_source(&mut self, src: PathBuf)
        ensures
            source_set(*old(self), *final(self), src@),
    {
        let ghost all = path_bytes(self.destinations@);
        let mut kept: Vec<PathBuf> = Vec::new();
        assert(path_bytes(kept@) =~= Seq::empty());
        for i in 0..self.destinations.len()
            invariant
                *self == *old(self),
                all == path_bytes(self.destinations@),
                path_bytes(kept@) == safe_from(all.take(i as int), src@),
                kept@.len() <= i,
        {
            let ghost before = path_bytes(kept@);
            assert(all.take(i + 1).drop_last() =~= all.take(i as int));
            assert(all.take(i + 1).last() == self.destinations@[i as int]@);
            if source_conflict(&self.destinations[i], &src).is_none() {
                let d = self.destinations[i].clone();
                assert(path_bytes(kept@.push(d)) =~= before.push(d@));
                kept.push(d);
            }
        }
        assert(all.take(self.destinations@.len() as int) =~= all);
        assert(path_bytes(kept@).len() == kept@.len());
        let pruned: usize = self.destinations.len() - kept.len();
        self.destinations = kept;
        self.source = Some(src);
        if pruned > 0 {
            let mut s = "Source set — dropped ".to_owned();
            s.append(text::decimal_usize(pruned).as_str());
            s.append(" destination(s) that overlapped it.");
            self.error(s);
        } else {
            self.info("Source set. Now add one or more destinations.".to_owned());
        }
    }

    /// Add a destination, unless there is something against it.
    pub fn add_destination(&mut self, cand: PathBuf) -> (res: Result<(), String>)
        ensures
            match res {
                Ok(()) => {
                    &&& refusal(*old(self), cand@) is None
                    &&& destination_added(*old(self), *final(self), cand@)
                    &&& final(self).status@ == "Added destination ("@ + decimal(
                        final(self).destinations@.len(),
                    ) + " total)."@
                },
                Err(why) => *final(self) == *old(self) && refusal(*old(self), cand@) == Some(why@),
            },
    {
        if self.source.is_none() {
            return Err("Choose a source first.".to_owned());
        }
        match self.validate_destination(&cand) {
            Ok(()) => {},
            Err(why) => {
                return Err(why);
            },
        }
        let ghost all = path_bytes(self.destinations@);
        assert(path_bytes(self.destinations@.push(cand)) =~= all.push(cand@));
        self.destinations.push(cand);
        let mut s = "Added destination (".to_owned();
        s.append(text::decimal_usize(self.destinations.len()).as_str());
        s.append(" total).");
        self.info(s);
        Ok(())
    }

    /// Whether a folder may be a destination: it must not be, lie in or contain the
    /// source, and not be one already.
    pub fn validate_destination(&self, cand: &PathBuf) -> (res: Result<(), String>)
        requires
            self.source is Some,
        ensures
            match res {
                Ok(()) => refusal(*self, cand@) is None,
                Err(why) => refusal(*self, cand@) == Some(why@),
            },
    {
        if let Some(src) = &self.source {
            if let Some(why) = source_conflict(cand, src) {
                return Err(conflict_reason(why).to_owned());
            }
        }
        if position_of(&self.destinations, cand).is_some() {
            return Err("Already added that destination.".to_owned());
        }
        Ok(())
    }

    /// How a folder conflicts with the source, if it does.
    pub fn dest_conflict(&self, path: &PathBuf, resolver: &Resolver) -> (res: Option<Conflict>)
        ensures
            res == pick_conflict(*self, resolver.known@, path@),
    {
        match &self.source {
            Some(src) => source_conflict(&resolver.canonical(path), src),
            None => None,
        }
    }

    // --- actions ---

    fn open_browser(&mut self, target: PickTarget) -> (res: Option<PathBuf>)
        ensures
            browsing_opened(*old(self), *final(self), target),
            bytes_in(res) == Some(old(self).root@),
    {
        let dir = self.root.clone();
        let list = self.move_to(dir, None);
        self.mode = Mode::Browsing(target);
        match target {
            PickTarget::Source => {
                self.info("Pick the SOURCE folder — Space to choose, Esc cancels.".to_owned());
            },
            PickTarget::Destination => {
                self.info(
                    "Pick DESTINATION folders — Space selects, Space again deselects, Esc when done.".to_owned(),
                );
            },
        }
        list
    }

    /// Activate the highlighted action; gives the folder to list, if one is to be.
    pub fn activate_action(&mut self) -> (res: Option<PathBuf>)
        ensures
            activated(*old(self), *final(self), bytes_in(res)),
    {
        if self.actions_sel == 0 {
            self.open_browser(PickTarget::Source)
        } else if self.actions_sel == 1 {
            if self.source.is_none() {
                self.error(
                    "Choose a source first — select \"Select source folder\".".to_owned(),
                );
                return None;
            }
            self.open_browser(PickTarget::Destination)
        } else if self.actions_sel == 2 {
            self.confirm();
            None
        } else if self.actions_sel == 3 {
            self.open_mappings();
            None
        } else {
            self.open_backup();
            None
        }
    }

    fn ready(&self) -> (res: bool)
        ensures
            res == is_ready(*self),
    {
        self.source.is_some() && self.destinations.len() > 0
    }

    /// Ask for a sync, which needs a source and a destination.
    pub fn confirm(&mut self)
        ensures
            sync_asked(*old(self), *final(self)),
    {
        if self.ready() {
            self.outcome = Some(Outcome::Confirmed);
        } else if self.source.is_none() {
            self.error("Choose a source first ([s]).".to_owned());
        } else {
            self.error("Add at least one destination ([a]) before syncing.".to_owned());
        }
    }

    /// Ask for the file mappings, which need a source and a destination.
    pub fn open_mappings(&mut self)
        ensures
            mappings_asked(*old(self), *final(self)),
    {
        if self.ready() {
            self.outcome = Some(Outcome::OpenMappings);
        } else if self.source.is_none() {
            self.error("Choose a source first ([s]) before mapping files.".to_owned());
        } else {
            self.error("Add at least one destination ([a]) before mapping files.".to_owned());
        }
    }

    /// Ask for a backup, which only reads the source and so needs no destination.
    pub fn open_backup(&mut self)
        ensures
            backup_asked(*old(self), *final(self)),
    {
        if self.source.is_some() {
            self.outcome = Some(Outcome::OpenBackup);
        } else {
            self.error("Choose a source first ([s]) before backing up.".to_owned());
        }
    }

    // --- info pane ---

    /// The selectable rows of the info pane, top to bottom: the header, then, where the
    /// list is revealed, one for each destination and, below the expanded one, one for
    /// each group of mapped files.
    pub fn info_targets(&self, resolver: &Resolver) -> (res: Vec<InfoTarget>)
        ensures
            res@ == targets_of(*self, resolver.known@),
    {
        let mut targets: Vec<InfoTarget> = Vec::new();
        targets.push(InfoTarget::DestHeader);
        assert(targets@ =~= seq![InfoTarget::DestHeader]);
        if self.info_dest_list_open {
            let ghost head = targets@;
            assert(head + dest_targets(*self, resolver.known@, 0) =~= head);
            for i in 0..self.destinations.len()
                invariant
                    targets@ == head + dest_targets(*self, resolver.known@, i as int),
            {
                let ghost before = dest_targets(*self, resolver.known@, i as int);
                targets.push(InfoTarget::Dest(i));
                assert(targets@ =~= head + before.push(InfoTarget::Dest(i)));
                if self.info_dest_expanded == Some(i) {
                    let root = resolver.canonical(&self.destinations[i]);
                    let groups = group_mappings(&self.mappings, &root);
                    let n: usize = groups.len();
                    let ghost mid = targets@;
                    let ghost rows = Seq::new(
                        group_count(*self, resolver.known@, i as int),
                        |k: int| InfoTarget::Folder(k as usize),
                    );
                    assert(n == rows.len());
                    assert(mid + rows.take(0) =~= mid);
                    for k in 0..n
                        invariant
                            n == rows.len(),
                            rows == Seq::new(
                                group_count(*self, resolver.known@, i as int),
                                |k: int| InfoTarget::Folder(k as usize),
                            ),
                            targets@ == mid + rows.take(k as int),
                    {
                        targets.push(InfoTarget::Folder(k));
                        assert(mid + rows.take(k + 1) =~= (mid + rows.take(k as int)).push(
                            rows[k as int],
                        ));
                    }
                    assert(rows.take(n as int) =~= rows);
                    assert(targets@ =~= head + (before.push(InfoTarget::Dest(i)) + rows));
                }
            }
        }
        targets
    }

    /// How many selectable rows the info pane has.
    pub fn info_len(&self, resolver: &Resolver) -> (res: usize)
        ensures
            res == targets_of(*self, resolver.known@).len(),
    {
        self.info_targets(resolver).len()
    }

    /// Move down in the info pane.
    pub fn info_down(&mut self, resolver: &Resolver)
        requires
            old(self).info_sel < usize::MAX,
        ensures
            info_lowered(*old(self), resolver.known@, *final(self)),
            final(self).info_sel < usize::MAX,
    {
        let len = self.info_len(resolver);
        let last: usize = len - 1;
        self.info_sel = if self.info_sel + 1 < last {
            self.info_sel + 1
        } else {
            last
        };
    }

    /// Act on `Enter`: reveal or hide the list, expand or collapse a destination or a
    /// group. At most one of each is open.
    pub fn info_enter(&mut self, resolver: &Resolver)
        ensures
            entered(*old(self), resolver.known@, *final(self)),
    {
        let targets = self.info_targets(resolver);
        if self.info_sel >= targets.len() {
            return;
        }
        match targets[self.info_sel] {
            InfoTarget::DestHeader => {
                if self.info_dest_list_open {
                    self.info_dest_list_open = false;
                    self.info_dest_expanded = None;
                    self.info_folder_expanded = None;
                    self.info_sel = 0;
                } else {
                    self.info_dest_list_open = true;
                }
            },
            InfoTarget::Dest(i) => {
                self.info_dest_expanded = if self.info_dest_expanded == Some(i) {
                    None
                } else {
                    Some(i)
                };
                self.info_folder_expanded = None;
            },
            InfoTarget::Folder(k) => {
                self.info_folder_expanded = if self.info_folder_expanded == Some(k) {
                    None
                } else {
                    Some(k)
                };
            },
        }
    }

    /// Collapse one level: the open group, then the destination, then the list.
    pub fn info_back(&mut self)
        ensures
            backed(*old(self), *final(self)),
    {
        if self.info_folder_expanded.is_some() {
            self.info_folder_expanded = None;
        } else if self.info_dest_expanded.is_some() {
            self.info_dest_expanded = None;
        } else if self.info_dest_list_open {
            self.info_dest_list_open = false;
            self.info_sel = 0;
        }
    }

    /// Re-seat the accordion after the destinations may have changed, so that nothing
    /// points past the end of a list.
    pub fn clamp_info(&mut self, resolver: &Resolver)
        ensures
            clamped(*old(self), resolver.known@, *final(self)),
            final(self).info_sel < usize::MAX,
    {
        if let Some(i) = self.info_dest_expanded {
            if i >= self.destinations.len() {
                self.info_dest_expanded = None;
            }
        }
        let groups: usize = match self.info_dest_expanded {
            Some(i) => {
                let root = resolver.canonical(&self.destinations[i]);
                let groups = group_mappings(&self.mappings, &root);
                assert(groups@.len() == group_count(*self, resolver.known@, i as int));
                groups.len()
            },
            None => 0,
        };
        if let Some(k) = self.info_folder_expanded {
            if k >= groups {
                self.info_folder_expanded = None;
            }
        }
        let len = self.info_len(resolver);
        let last: usize = len - 1;
        self.info_sel = if self.info_sel < last {
            self.info_sel
        } else {
            last
        };
    }

    // --- chrome ---

    /// Switch focus between the panes.
    pub fn cycle_main_focus(&mut self)
        ensures
            *final(self) == (Browser { main_focus: old(self).main_focus.other(), ..*old(self) }),
    {
        self.main_focus = self.main_focus.next();
    }

    /// Ask whether to leave, with the focus on staying.
    pub fn prompt_quit(&mut self)
        ensures
            *final(self) == (Browser { quit_prompt: Some(QuitChoice::Cancel), ..*old(self) }),
    {
        self.quit_prompt = Some(QuitChoice::Cancel);
    }

    fn on_key_quit_prompt(&mut self, key: Key)
        ensures
            quit_keyed(*old(self), key, *final(self)),
    {
        let focused = match self.quit_prompt {
            Some(c) => c,
            None => QuitChoice::Cancel,
        };
        if key == Key::Left || key == Key::Right || key == Key::Char('h') || key == Key::Char('l')
            || key == Key::Tab || key == Key::BackTab {
            self.quit_prompt = Some(focused.toggle());
        } else if key == Key::Enter {
            self.quit_prompt = None;
            if focused == QuitChoice::Confirm {
                self.outcome = Some(Outcome::Cancelled);
            }
        } else if key == Key::Char('y') {
            self.quit_prompt = None;
            self.outcome = Some(Outcome::Cancelled);
        } else if key == Key::Char('n') || key == Key::Esc {
            self.quit_prompt = None;
        }
    }

    fn on_key_main(&mut self, key: Key, resolver: &Resolver) -> (res: Option<PathBuf>)
        requires
            old(self).wf(),
        ensures
            main_keyed(*old(self), key, resolver.known@, *final(self), bytes_in(res)),
            final(self).wf(),
    {
        if key == Key::Char('s') {
            self.actions_sel = 0;
            return self.activate_action();
        }
        if key == Key::Char('a') {
            self.actions_sel = 1;
            return self.activate_action();
        }
        if self.main_focus == MainFocus::Actions && (key == Key::Enter || key == Key::Right || key
            == Key::Char('l')) {
            return self.activate_action();
        }
        if key == Key::Tab || key == Key::BackTab {
            self.cycle_main_focus();
        } else if key == Key::Char('c') {
            self.confirm();
        } else if key == Key::Char('m') {
            self.actions_sel = 3;
            self.open_mappings();
        } else if key == Key::Char('b') {
            self.actions_sel = 4;
            self.open_backup();
        } else if key == Key::Char('q') || key == Key::Esc {
            self.prompt_quit();
        } else if self.main_focus == MainFocus::Actions {
            if key == Key::Up || key == Key::Char('k') {
                if self.actions_sel > 0 {
                    self.actions_sel -= 1;
                }
            } else if key == Key::Down || key == Key::Char('j') {
                self.actions_sel = if self.actions_sel + 1 < ACTION_COUNT - 1 {
                    self.actions_sel + 1
                } else {
                    ACTION_COUNT - 1
                };
            }
        } else if key == Key::Up || key == Key::Char('k') {
            if self.info_sel > 0 {
                self.info_sel -= 1;
            }
        } else if key == Key::Down || key == Key::Char('j') {
            self.info_down(resolver);
        } else if key == Key::Enter || key == Key::Right || key == Key::Char('l') {
            self.info_enter(resolver);
        } else if key == Key::Backspace || key == Key::Left || key == Key::Char('h') {
            self.info_back();
        }
        None
    }

    fn on_key_browsing(&mut self, key: Key, resolver: &Resolver) -> (res: Option<PathBuf>)
        requires
            old(self).wf(),
            old(self).mode is Browsing,
        ensures
            browsing_keyed(*old(self), key, resolver.known@, *final(self), bytes_in(res)),
            final(self).wf(),
    {
        if key == Key::Right || key == Key::Char('l') || key == Key::Enter {
            return self.browse_descend();
        }
        if key == Key::Left || key == Key::Char('h') || key == Key::Backspace {
            return self.browse_ascend();
        }
        if key == Key::Char('r') {
            return self.browse_to_root();
        }
        if key == Key::Up || key == Key::Char('k') {
            self.browse_up();
        } else if key == Key::Down || key == Key::Char('j') {
            self.browse_down();
        } else if key == Key::Char(' ') {
            self.browse_select(resolver);
        } else if key == Key::Char('q') || key == Key::Esc {
            self.return_to_main(resolver);
        }
        None
    }

    /// Take in a key; gives the folder to list, if one is to be. Its subfolders are then
    /// to be handed over with [`Browser::set_listing`].
    pub fn on_key(&mut self, key: Key, ctrl: bool, resolver: &Resolver) -> (res: Option<PathBuf>)
        requires
            old(self).wf(),
        ensures
            keyed(*old(self), key, ctrl, resolver.known@, *final(self), bytes_in(res)),
            final(self).wf(),
    {
        // The quit dialog takes every key while it is open.
        if self.quit_prompt.is_some() {
            self.on_key_quit_prompt(key);
            return None;
        }
        if ctrl && key == Key::Char('q') {
            self.show_help = !self.show_help;
            return None;
        }
        // Any key closes the overlay.
        if self.show_help {
            self.show_help = false;
            return None;
        }
        match self.mode {
            Mode::Browsing(_) => self.on_key_browsing(key, resolver),
            Mode::Main => self.on_key_main(key, resolver),
        }
    }
}

/// How often a list says yes.
pub open spec fn count_true(s: Seq<bool>) -> nat
    decreases s.len(),
{
    if s.len() == 0 {
        0
    } else {
        count_true(s.drop_last()) + (if s.last() {
            1nat
        } else {
            0
        })
    }
}

/// How many targets a list of mappings has.
pub open spec fn target_count(mappings: Seq<crate::store::Link>) -> nat
    decreases mappings.len(),
{
    if mappings.len() == 0 {
        0
    } else {
        target_count(mappings.drop_last()) + mappings.last().targets.len()
    }
}

/// How many paths of a list lie below a folder.
pub open spec fn count_below(paths: Seq<Seq<u8>>, root: Seq<u8>) -> nat
    decreases paths.len(),
{
    if paths.len() == 0 {
        0
    } else {
        count_below(paths.drop_last(), root) + (if is_within(paths.last(), root) {
            1nat
        } else {
            0
        })
    }
}

/// How many targets of mappings lie below a folder.
pub open spec fn mapped_below(mappings: Seq<crate::store::Link>, root: Seq<u8>) -> nat
    decreases mappings.len(),
{
    if mappings.len() == 0 {
        0
    } else {
        mapped_below(mappings.drop_last(), root) + count_below(mappings.last().targets, root)
    }
}

/// The first mappings have no more targets than all.
pub proof fn lemma_target_count_take(mappings: Seq<crate::store::Link>, i: int)
    requires
        0 <= i <= mappings.len(),
    ensures
        target_count(mappings.take(i)) <= target_count(mappings),
    decreases mappings.len(),
{
    if i == mappings.len() {
        assert(mappings.take(i) =~= mappings);
    } else {
        lemma_target_count_take(mappings.drop_last(), i);
        assert(mappings.drop_last().take(i) =~= mappings.take(i));
    }
}

// --- Laws ------------------------------------------------------------------

/// Whether no destination conflicts with the source.
pub open spec fn all_safe(b: Browser) -> bool {
    b.source matches Some(src) ==> forall|i: int|
        0 <= i < b.destinations@.len() ==> conflict((#[trigger] b.destinations@[i])@, src@) is None
}

/// Whether no destination is listed twice.
pub open spec fn all_different(b: Browser) -> bool {
    forall|i: int, j: int|
        #![trigger b.destinations@[i], b.destinations@[j]]
        0 <= i < j < b.destinations@.len() ==> !same_path(
            b.destinations@[i]@,
            b.destinations@[j]@,
        )
}

proof fn lemma_safe_from(s: Seq<Seq<u8>>, src: Seq<u8>)
    ensures
        forall|i: int|
            0 <= i < safe_from(s, src).len() ==> conflict(#[trigger] safe_from(s, src)[i], src)
                is None,
        forall|i: int|
            0 <= i < safe_from(s, src).len() ==> s.contains(#[trigger] safe_from(s, src)[i]),
        (forall|i: int, j: int|
            #![trigger s[i], s[j]]
            0 <= i < j < s.len() ==> !same_path(s[i], s[j])) ==> forall|i: int, j: int|
            #![trigger safe_from(s, src)[i], safe_from(s, src)[j]]
            0 <= i < j < safe_from(s, src).len() ==> !same_path(
                safe_from(s, src)[i],
                safe_from(s, src)[j],
            ),
    decreases s.len(),
{
    if s.len() > 0 {
        let t = s.drop_last();
        lemma_safe_from(t, src);
        let out = safe_from(s, src);
        let rest = safe_from(t, src);
        assert forall|i: int| 0 <= i < out.len() implies s.contains(#[trigger] out[i]) by {
            if i < rest.len() {
                assert(out[i] == rest[i]);
                let k = choose|k: int| 0 <= k < t.len() && t[k] == rest[i];
                assert(s[k] == out[i]);
            } else {
                assert(s[s.len() - 1] == out[i]);
            }
        }
        if forall|i: int, j: int|
            #![trigger s[i], s[j]]
            0 <= i < j < s.len() ==> !same_path(s[i], s[j]) {
            assert forall|i: int, j: int|
                #![trigger t[i], t[j]]
                0 <= i < j < t.len() implies !same_path(t[i], t[j]) by {
                assert(t[i] == s[i] && t[j] == s[j]);
            }
            assert forall|i: int, j: int|
                #![trigger out[i], out[j]]
                0 <= i < j < out.len() implies !same_path(out[i], out[j]) by {
                assert(out[i] == rest[i]);
                if j < rest.len() {
                    assert(out[j] == rest[j]);
                } else {
                    let k = choose|k: int| 0 <= k < t.len() && t[k] == rest[i];
                    assert(!same_path(s[k], s[s.len() - 1]));
                }
            }
        }
    }
}

/// The destinations of a state that lists these paths.
proof fn lemma_listed(b: Browser, paths: Seq<Seq<u8>>)
    requires
        path_bytes(b.destinations@) == paths,
    ensures
        b.destinations@.len() == paths.len(),
        forall|i: int| 0 <= i < paths.len() ==> (#[trigger] b.destinations@[i])@ == paths[i],
{
    assert forall|i: int| 0 <= i < paths.len() implies (#[trigger] b.destinations@[i])@
        == paths[i] by {
        assert(path_bytes(b.destinations@)[i] == b.destinations@[i]@);
    }
}

/// Choosing a source leaves no destination that conflicts with it.
pub proof fn law_choosing_a_source_is_safe(before: Browser, after: Browser, src: Seq<u8>)
    requires
        source_set(before, after, src),
    ensures
        all_safe(after),
        all_different(before) ==> all_different(after),
{
    let all = path_bytes(before.destinations@);
    let kept = safe_from(all, src);
    lemma_listed(before, all);
    lemma_listed(after, kept);
    lemma_safe_from(all, src);
    assert(all_safe(after)) by {
        assert forall|i: int| 0 <= i < after.destinations@.len() implies conflict(
            (#[trigger] after.destinations@[i])@,
            src,
        ) is None by {
            assert(after.destinations@[i]@ == kept[i]);
        }
    }
    if all_different(before) {
        assert forall|i: int, j: int|
            #![trigger all[i], all[j]]
            0 <= i < j < all.len() implies !same_path(all[i], all[j]) by {
            assert(all[i] == before.destinations@[i]@ && all[j] == before.destinations@[j]@);
        }
        assert forall|i: int, j: int|
            #![trigger after.destinations@[i], after.destinations@[j]]
            0 <= i < j < after.destinations@.len() implies !same_path(
            after.destinations@[i]@,
            after.destinations@[j]@,
        ) by {
            assert(after.destinations@[i]@ == kept[i] && after.destinations@[j]@ == kept[j]);
        }
    }
}

proof fn lemma_toggle_keeps(before: Browser, known: Seq<Place>, after: Browser)
    requires
        toggled(before, known, after),
    ensures
        all_safe(before) ==> all_safe(after),
        all_different(before) ==> all_different(after),
{
    let pick = canonical_of(known, target_of(before));
    let all = path_bytes(before.destinations@);
    lemma_listed(before, all);
    lemma_find_path(all, pick);
    match find_path(all, pick) {
        Some(i) => {
            lemma_listed(after, all.remove(i));
            assert forall|j: int| 0 <= j < after.destinations@.len() implies (
            #[trigger] after.destinations@[j])@ == before.destinations@[if j < i {
                j
            } else {
                j + 1
            }]@ by {}
        },
        None => {
            if pick_conflict(before, known, pick) is None && refusal(before, pick) is None {
                lemma_listed(after, all.push(pick));
                assert forall|j: int| 0 <= j < all.len() implies (
                #[trigger] after.destinations@[j])@ == before.destinations@[j]@ by {}
                assert(after.destinations@[all.len() as int]@ == pick);
                assert forall|j: int| 0 <= j < all.len() implies !same_path(
                    (#[trigger] before.destinations@[j])@,
                    pick,
                ) by {
                    assert(all[j] == before.destinations@[j]@);
                }
            }
        },
    }
}

/// Whatever the user does, every destination stays safe from the source, and none is
/// listed twice.
pub proof fn law_destinations_stay_safe(
    before: Browser,
    key: Key,
    ctrl: bool,
    known: Seq<Place>,
    after: Browser,
    list: Option<Seq<u8>>,
)
    requires
        keyed(before, key, ctrl, known, after, list),
        all_safe(before),
        all_different(before),
    ensures
        all_safe(after),
        all_different(after),
{
    if before.mode is Browsing && before.quit_prompt is None && !before.show_help && key
        == Key::Char(' ') && !(ctrl && key == Key::Char('q')) {
        match before.mode {
            Mode::Browsing(PickTarget::Source) => {
                let src = canonical_of(known, target_of(before));
                let mid = choose|mid: Browser| #[trigger]
                    source_set(before, mid, src) && clamped(
                        Browser { mode: Mode::Main, ..mid },
                        known,
                        after,
                    );
                law_choosing_a_source_is_safe(before, mid, src);
                assert(after.destinations == mid.destinations && after.source == mid.source);
            },
            _ => {
                lemma_toggle_keeps(before, known, after);
            },
        }
    } else {
        assert(after.destinations == before.destinations && after.source == before.source);
    }
}

/// The home is left only through the quit dialog. A sync or the mappings are asked for
/// only with a source and a destination, a backup only with a source.
pub proof fn law_outcomes_are_meant(
    before: Browser,
    key: Key,
    ctrl: bool,
    known: Seq<Place>,
    after: Browser,
    list: Option<Seq<u8>>,
)
    requires
        keyed(before, key, ctrl, known, after, list),
        before.outcome is None,
    ensures
        after.outcome == Some(Outcome::Cancelled) ==> before.quit_prompt is Some,
        after.outcome == Some(Outcome::Confirmed) ==> is_ready(before),
        after.outcome == Some(Outcome::OpenMappings) ==> is_ready(before),
        after.outcome == Some(Outcome::OpenBackup) ==> before.source is Some,
{
}

/// Selecting a folder that may be a destination and selecting it again leaves the
/// destinations as they were.
pub proof fn law_toggling_twice_changes_nothing(
    before: Browser,
    known: Seq<Place>,
    mid: Browser,
    after: Browser,
)
    requires
        toggled(before, known, mid),
        toggled(mid, known, after),
        find_path(
            path_bytes(before.destinations@),
            canonical_of(known, target_of(before)),
        ) is None,
    ensures
        path_bytes(after.destinations@) == path_bytes(before.destinations@),
{
    let pick = canonical_of(known, target_of(before));
    let all = path_bytes(before.destinations@);
    assert(target_of(mid) == target_of(before));
    if pick_conflict(before, known, pick) is None && refusal(before, pick) is None {
        let more = all.push(pick);
        assert(more.drop_last() =~= all);
        assert(find_path(more, pick) == Some(all.len() as int));
        assert(more.remove(all.len() as int) =~= all);
    }
}

/// A folder conflicts with the source exactly where one lies within the other.
pub proof fn law_conflicts_are_overlaps(cand: Seq<u8>, src: Seq<u8>)
    ensures
        conflict(cand, src) is Some <==> components(src).is_prefix_of(components(cand))
            || components(cand).is_prefix_of(components(src)),
        conflict(cand, src) == Some(Conflict::IsSource) <==> components(cand) == components(src),
        conflict(cand, src) == Some(Conflict::Inside) ==> components(src).is_prefix_of(
            components(cand),
        ),
        conflict(cand, src) == Some(Conflict::Contains) ==> components(cand).is_prefix_of(
            components(src),
        ),
{
    let c = components(cand);
    assert(c.subrange(0, c.len() as int) =~= c);
}

/// Choosing a source drops the destinations that overlap it and keeps all others, in
/// order.
pub proof fn law_choosing_a_source_drops_only_overlaps(before: Browser, after: Browser, src: Seq<u8>)
    requires
        source_set(before, after, src),
    ensures
        bytes_in(after.source) == Some(src),
        path_bytes(after.destinations@) == path_bytes(before.destinations@).filter(
            |d: Seq<u8>|
                !components(src).is_prefix_of(components(d)) && !components(d).is_prefix_of(
                    components(src),
                ),
        ),
        after.mappings == before.mappings,
{
    lemma_safe_is_filter(path_bytes(before.destinations@), src);
}

proof fn lemma_safe_is_filter(s: Seq<Seq<u8>>, src: Seq<u8>)
    ensures
        safe_from(s, src) == s.filter(
            |d: Seq<u8>|
                !components(src).is_prefix_of(components(d)) && !components(d).is_prefix_of(
                    components(src),
                ),
        ),
    decreases s.len(),
{
    reveal(Seq::filter);
    if s.len() > 0 {
        lemma_safe_is_filter(s.drop_last(), src);
        law_conflicts_are_overlaps(s.last(), src);
    }
}

/// A folder is taken as a destination exactly where there is a source, neither lies within
/// the other, and it is none yet.
pub proof fn law_destinations_are_refused_exactly(b: Browser, cand: Seq<u8>)
    ensures
        refusal(b, cand) is None <==> (b.source matches Some(src) && {
            &&& !components(src@).is_prefix_of(components(cand))
            &&& !components(cand).is_prefix_of(components(src@))
            &&& forall|i: int|
                0 <= i < b.destinations@.len() ==> !same_path(
                    (#[trigger] b.destinations@[i])@,
                    cand,
                )
        }),
{
    let all = path_bytes(b.destinations@);
    lemma_find_path(all, cand);
    assert forall|i: int| 0 <= i < b.destinations@.len() implies (#[trigger] b.destinations@[i])@
        == all[i] by {}
    if b.source is Some {
        law_conflicts_are_overlaps(cand, b.source->0@);
    }
    if find_path(all, cand) is Some {
        let i = find_path(all, cand)->0;
        assert(same_path(b.destinations@[i]@, cand));
    } else {
        assert forall|i: int| 0 <= i < b.destinations@.len() implies !same_path(
            (#[trigger] b.destinations@[i])@,
            cand,
        ) by {
            assert(!same_path(all[i], cand));
        }
    }
}

/// Space on a folder in the destination picker takes out the destination that it is, or
/// adds it where it may be one, and else changes no destination.
pub proof fn law_toggling_adds_or_removes(before: Browser, known: Seq<Place>, after: Browser)
    requires
        toggled(before, known, after),
        before.source is Some,
        canonical_of(known, canonical_of(known, target_of(before))) == canonical_of(
            known,
            target_of(before),
        ),
    ensures
        ({
            let pick = canonical_of(known, target_of(before));
            let old_ones = path_bytes(before.destinations@);
            let new_ones = path_bytes(after.destinations@);
            let there = exists|i: int|
                0 <= i < old_ones.len() && same_path(#[trigger] old_ones[i], pick);
            let apart = !components(before.source->0@).is_prefix_of(components(pick))
                && !components(pick).is_prefix_of(components(before.source->0@));
            &&& there ==> exists|i: int|
                0 <= i < old_ones.len() && same_path(#[trigger] old_ones[i], pick) && new_ones
                    == old_ones.remove(i)
            &&& !there && apart ==> new_ones == old_ones.push(pick)
            &&& !there && !apart ==> new_ones == old_ones
            &&& after.source == before.source && after.mappings == before.mappings
        }),
{
    let pick = canonical_of(known, target_of(before));
    let all = path_bytes(before.destinations@);
    lemma_find_path(all, pick);
    law_conflicts_are_overlaps(pick, before.source->0@);
    if find_path(all, pick) is Some {
        let i = find_path(all, pick)->0;
        assert(same_path(all[i], pick));
    } else {
        assert forall|i: int| 0 <= i < all.len() implies !same_path(#[trigger] all[i], pick) by {}
    }
}

/// Space in the source picker chooses the highlighted folder, or the one that is shown
/// where none is highlighted, and returns to the main view.
pub proof fn law_space_picks_the_source(before: Browser, known: Seq<Place>, after: Browser)
    requires
        selected(before, known, after),
        before.mode == Mode::Browsing(PickTarget::Source),
    ensures
        after.mode == Mode::Main,
        bytes_in(after.source) == Some(
            canonical_of(
                known,
                match before.browse_sel {
                    Some(i) => if i < before.entries@.len() {
                        before.entries@[i as int]@
                    } else {
                        before.cwd@
                    },
                    None => before.cwd@,
                },
            ),
        ),
        after.outcome == before.outcome,
{
}

/// The folders change only by Space in the folder browser.
pub proof fn law_folders_change_only_by_picking(
    before: Browser,
    key: Key,
    ctrl: bool,
    known: Seq<Place>,
    after: Browser,
    list: Option<Seq<u8>>,
)
    requires
        keyed(before, key, ctrl, known, after, list),
        !(before.mode is Browsing && key == Key::Char(' ') && before.quit_prompt is None
            && !before.show_help),
    ensures
        after.source == before.source,
        after.destinations == before.destinations,
        after.mappings == before.mappings,
        after.root == before.root,
{
}

/// What the keys of the main view ask for: c a sync, m the mappings, b a backup, where
/// there is what they need; s and a open the folder browser at the launch folder; q and
/// Esc ask whether to leave.
pub proof fn law_main_keys_ask(
    before: Browser,
    key: Key,
    known: Seq<Place>,
    after: Browser,
    list: Option<Seq<u8>>,
)
    requires
        keyed(before, key, false, known, after, list),
        before.mode == Mode::Main,
        before.quit_prompt is None,
        !before.show_help,
        before.outcome is None,
    ensures
        key == Key::Char('c') && before.source is Some && before.destinations@.len() > 0
            ==> after.outcome == Some(Outcome::Confirmed),
        key == Key::Char('m') && before.source is Some && before.destinations@.len() > 0
            ==> after.outcome == Some(Outcome::OpenMappings),
        key == Key::Char('b') && before.source is Some ==> after.outcome == Some(
            Outcome::OpenBackup,
        ),
        key == Key::Char('s') ==> after.mode == Mode::Browsing(PickTarget::Source) && list == Some(
            before.root@,
        ) && after.cwd@ == before.root@,
        key == Key::Char('a') && before.source is Some ==> after.mode == Mode::Browsing(
            PickTarget::Destination,
        ) && list == Some(before.root@),
        key == Key::Char('a') && before.source is None ==> after.mode == Mode::Main
            && after.status_is_error,
        key == Key::Char('q') || key == Key::Esc ==> after.quit_prompt == Some(QuitChoice::Cancel)
            && after.outcome is None,
{
}

/// The actions pane does by Enter what the row says: source, destinations, sync, mappings,
/// backup.
pub proof fn law_actions_do_what_they_say(
    before: Browser,
    after: Browser,
    list: Option<Seq<u8>>,
)
    requires
        activated(before, after, list),
        before.source is Some,
        before.destinations@.len() > 0,
        before.actions_sel < 5,
    ensures
        before.actions_sel == 0 ==> after.mode == Mode::Browsing(PickTarget::Source) && list
            == Some(before.root@),
        before.actions_sel == 1 ==> after.mode == Mode::Browsing(PickTarget::Destination) && list
            == Some(before.root@),
        before.actions_sel == 2 ==> after.outcome == Some(Outcome::Confirmed),
        before.actions_sel == 3 ==> after.outcome == Some(Outcome::OpenMappings),
        before.actions_sel == 4 ==> after.outcome == Some(Outcome::OpenBackup),
{
}

/// The quit dialog: y, or Enter on the button that confirms, leave; n, Esc and Enter on the
/// other stay.
pub proof fn law_the_quit_dialog_asks(before: Browser, key: Key, after: Browser)
    requires
        quit_keyed(before, key, after),
        before.quit_prompt is Some,
        before.outcome is None,
    ensures
        after.outcome == Some(Outcome::Cancelled) <==> key == Key::Char('y') || (key == Key::Enter
            && before.quit_prompt == Some(QuitChoice::Confirm)),
        after.outcome is None <==> after.outcome != Some(Outcome::Cancelled),
        after.quit_prompt is None <==> key == Key::Enter || key == Key::Char('y') || key
            == Key::Char('n') || key == Key::Esc,
{
}

/// In the folder browser Enter opens the highlighted folder, Backspace its parent and r the
/// launch folder; each is listed as it is opened.
pub proof fn law_browsing_moves(
    before: Browser,
    key: Key,
    known: Seq<Place>,
    after: Browser,
    list: Option<Seq<u8>>,
)
    requires
        browsing_keyed(before, key, known, after, list),
    ensures
        (key == Key::Enter || key == Key::Right) && (before.browse_sel matches Some(i) && i
            < before.entries@.len()) ==> after.cwd@ == before.entries@[before.browse_sel->0 as int]@
            && list == Some(after.cwd@),
        (key == Key::Backspace || key == Key::Left) && parent_of(before.cwd@) is Some
            ==> after.cwd@ == parent_of(before.cwd@)->0 && list == Some(after.cwd@),
        key == Key::Char('r') ==> same_path(after.cwd@, before.root@),
        key == Key::Esc || key == Key::Char('q') ==> after.mode == Mode::Main,
        list is Some ==> list == Some(after.cwd@) && after.mode == before.mode,
{
}

/// How many mappings have a source, and how many targets lie below a folder: each is
/// counted once.
pub proof fn law_mapped_files_are_counted(
    is_file: Seq<bool>,
    paths: Seq<Seq<u8>>,
    root: Seq<u8>,
)
    ensures
        count_true(is_file) == is_file.filter(|b: bool| b).len(),
        count_below(paths, root) == paths.filter(
            |p: Seq<u8>| components(root).is_prefix_of(components(p)),
        ).len(),
    decreases is_file.len() + paths.len(),
{
    reveal(Seq::filter);
    if is_file.len() > 0 {
        law_mapped_files_are_counted(is_file.drop_last(), paths, root);
    } else if paths.len() > 0 {
        law_mapped_files_are_counted(is_file, paths.drop_last(), root);
    }
}

/// The mapped files of a folder are counted mapping by mapping.
pub proof fn law_mappings_are_counted_one_by_one(
    maps: Seq<crate::store::Link>,
    m: crate::store::Link,
    root: Seq<u8>,
)
    ensures
        mapped_below(maps.push(m), root) == mapped_below(maps, root) + count_below(m.targets, root),
        mapped_below(Seq::empty(), root) == 0,
        target_count(maps.push(m)) == target_count(maps) + m.targets.len(),
        target_count(Seq::empty()) == 0,
{
    assert(maps.push(m).drop_last() =~= maps);
}

/// The accordion of the info pane: Enter on the heading shows and hides the destinations,
/// Enter on a destination opens it and closes any other, and going back closes the
/// innermost that is open.
pub proof fn law_the_accordion_opens_and_closes(
    before: Browser,
    known: Seq<Place>,
    opened: Browser,
    closed: Browser,
)
    requires
        entered(before, known, opened),
        backed(before, closed),
        before.info_sel < targets_of(before, known).len(),
    ensures
        ({
            let row = targets_of(before, known)[before.info_sel as int];
            &&& row is DestHeader ==> opened.info_dest_list_open == !before.info_dest_list_open
            &&& row matches InfoTarget::Dest(i) ==> opened.info_dest_expanded == (if
                before.info_dest_expanded == Some(i) {
                None
            } else {
                Some(i)
            }) && opened.info_folder_expanded is None
            &&& row matches InfoTarget::Folder(k) ==> opened.info_folder_expanded == (if
                before.info_folder_expanded == Some(k) {
                None
            } else {
                Some(k)
            }) && opened.info_dest_expanded == before.info_dest_expanded
            &&& before.info_folder_expanded is Some ==> closed.info_folder_expanded is None
                && closed.info_dest_expanded == before.info_dest_expanded
            &&& before.info_folder_expanded is None && before.info_dest_expanded is Some
                ==> closed.info_dest_expanded is None && closed.info_dest_list_open
                == before.info_dest_list_open
            &&& before.info_folder_expanded is None && before.info_dest_expanded is None
                ==> !closed.info_dest_list_open
        }),
{
}

/// The rows of the info pane that can be selected: the heading and, while the list is
/// shown, each destination in order.
pub proof fn law_every_destination_has_a_row(b: Browser, known: Seq<Place>, i: int)
    requires
        0 <= i < b.destinations@.len() <= usize::MAX,
    ensures
        targets_of(b, known)[0] == InfoTarget::DestHeader,
        !b.info_dest_list_open ==> targets_of(b, known).len() == 1,
        b.info_dest_list_open ==> targets_of(b, known).contains(InfoTarget::Dest(i as usize)),
{
    if b.info_dest_list_open {
        let rows = dest_targets(b, known, b.destinations@.len() as int);
        lemma_dest_row(b, known, b.destinations@.len() as int, i);
        let k = choose|k: int| 0 <= k < rows.len() && rows[k] == InfoTarget::Dest(i as usize);
        assert((seq![InfoTarget::DestHeader] + rows)[1 + k] == InfoTarget::Dest(i as usize));
    }
}

proof fn lemma_dest_row(b: Browser, known: Seq<Place>, n: int, i: int)
    requires
        0 <= i < n <= b.destinations@.len() <= usize::MAX,
    ensures
        dest_targets(b, known, n).contains(InfoTarget::Dest(i as usize)),
    decreases n,
{
    let rest = dest_targets(b, known, n - 1);
    let all = dest_targets(b, known, n);
    if i < n - 1 {
        lemma_dest_row(b, known, n - 1, i);
        let k = choose|k: int| 0 <= k < rest.len() && rest[k] == InfoTarget::Dest(i as usize);
        assert(all[k] == InfoTarget::Dest(i as usize));
    } else {
        assert(all[rest.len() as int] == InfoTarget::Dest(i as usize));
    }
}

/// Returning to the main view leaves nothing expanded that is not there, and a row
/// selected that is.
pub proof fn law_returning_leaves_no_loose_ends(
    before: Browser,
    known: Seq<Place>,
    after: Browser,
)
    requires
        clamped(before, known, after),
    ensures
        after.info_dest_expanded matches Some(i) ==> i < after.destinations@.len(),
        after.info_folder_expanded matches Some(k) ==> after.info_dest_expanded is Some,
        after.source == before.source && after.destinations == before.destinations,
        before.info_dest_expanded matches Some(i) ==> i < before.destinations@.len()
            ==> after.info_dest_expanded == Some(i),
{
}

/// What the home asks for is what is done: a sync, the mappings, a backup, or the end.
pub proof fn law_outcomes_become_intents()
    ensures
        intent(Outcome::Confirmed) == HomeIntent::Sync,
        intent(Outcome::OpenMappings) == HomeIntent::Mappings,
        intent(Outcome::OpenBackup) == HomeIntent::Backup,
        intent(Outcome::Cancelled) == HomeIntent::Quit,
{
}

/// The highlight of the folder browser moves by one entry and stays on one.
pub proof fn law_the_highlight_stays_on_entries(b: Browser)
    requires
        b.wf(),
        0 < b.entries@.len() <= usize::MAX,
    ensures
        lower_entry(b) matches Some(i) && i < b.entries@.len() && match b.browse_sel {
            None => i == 0,
            Some(k) => i == k + 1 || (i == k && k == b.entries@.len() - 1),
        },
        upper_entry(b) matches Some(i) && i < b.entries@.len() && match b.browse_sel {
            None => i == 0,
            Some(k) => i == k - 1 || (i == 0 && k == 0),
        },
{
}

} // verus!
