//! The sync engine: scan, hash, diff, apply, and the explicit file mappings.

use std::time::SystemTime;
use vstd::prelude::*;

use crate::path::{components, PathBuf};

pub mod apply;
pub mod banner;
pub mod diff;
pub mod hash;
pub mod mapping;
pub mod mirror;
pub mod scan;
pub mod world;

verus! {

/// One entry of a scanned folder tree.
#[derive(Debug)]
pub struct FileEntry {
    /// Path relative to the scan root.
    pub rel_path: PathBuf,
    /// File size in bytes (0 for directories).
    pub size: u64,
    /// Last modification time, as reported by the filesystem.
    pub mtime: SystemTime,
    /// Whether this entry is a directory.
    pub is_dir: bool,
}

/// What an entry says, with its path as plain bytes.
pub struct Entry {
    pub rel: Seq<u8>,
    pub size: u64,
    pub mtime: SystemTime,
    pub is_dir: bool,
}

impl View for FileEntry {
    type V = Entry;

    open spec fn view(&self) -> Entry {
        Entry { rel: self.rel_path@, size: self.size, mtime: self.mtime, is_dir: self.is_dir }
    }
}

impl Clone for FileEntry {
    fn clone(&self) -> (res: FileEntry)
        ensures
            res@ == self@,
    {
        FileEntry {
            rel_path: self.rel_path.clone(),
            size: self.size,
            mtime: self.mtime,
            is_dir: self.is_dir,
        }
    }
}

/// The location that identifies an entry: the components of its path.
pub open spec fn key(e: Entry) -> Seq<Seq<u8>> {
    components(e.rel)
}

/// Whether no location occurs twice.
pub open spec fn keys_unique(s: Seq<Entry>) -> bool {
    forall|i: int, j: int|
        #![trigger s[i], s[j]]
        0 <= i < j < s.len() ==> key(s[i]) != key(s[j])
}

/// The position of the entry at a location, or -1.
pub open spec fn position(s: Seq<Entry>, k: Seq<Seq<u8>>) -> int
    decreases s.len(),
{
    if s.len() == 0 {
        -1
    } else if key(s.last()) == k {
        s.len() - 1
    } else {
        position(s.drop_last(), k)
    }
}

/// The entry at a location, if there is one.
pub open spec fn lookup(s: Seq<Entry>, k: Seq<Seq<u8>>) -> Option<Entry> {
    if position(s, k) >= 0 {
        Some(s[position(s, k)])
    } else {
        None
    }
}

/// A lookup finds an entry of that location, and fails only where none has it.
pub proof fn lemma_position(s: Seq<Entry>, k: Seq<Seq<u8>>)
    ensures
        -1 <= position(s, k) < s.len(),
        position(s, k) >= 0 ==> key(s[position(s, k)]) == k,
        position(s, k) < 0 ==> forall|i: int| 0 <= i < s.len() ==> key(#[trigger] s[i]) != k,
    decreases s.len(),
{
    if s.len() > 0 && key(s.last()) != k {
        let t = s.drop_last();
        lemma_position(t, k);
        if position(t, k) < 0 {
            assert forall|i: int| 0 <= i < s.len() implies key(#[trigger] s[i]) != k by {
                if i < s.len() - 1 {
                    assert(s[i] == t[i]);
                }
            }
        }
    }
}

/// A scanned folder tree: entries by their path relative to the scan root, no
/// location twice.
#[derive(Debug)]
pub struct Scan {
    pub entries: Vec<FileEntry>,
}

/// The entries of a list, with their paths as plain bytes.
pub open spec fn entries_view(s: Seq<FileEntry>) -> Seq<Entry> {
    s.map_values(|e: FileEntry| e@)
}

impl View for Scan {
    type V = Seq<Entry>;

    open spec fn view(&self) -> Seq<Entry> {
        entries_view(self.entries@)
    }
}

/// `s` with `e` in it: in place of the entry at the same location, or at the end.
pub open spec fn inserted(s: Seq<Entry>, e: Entry) -> Seq<Entry> {
    if position(s, key(e)) >= 0 {
        s.update(position(s, key(e)), e)
    } else {
        s.push(e)
    }
}

/// Recording an entry keeps locations apart.
pub proof fn lemma_inserted(s: Seq<Entry>, e: Entry)
    requires
        keys_unique(s),
    ensures
        keys_unique(inserted(s, e)),
{
    lemma_position(s, key(e));
    let t = inserted(s, e);
    let p = position(s, key(e));
    assert forall|i: int, j: int|
        #![trigger t[i], t[j]]
        0 <= i < j < t.len() implies key(t[i]) != key(t[j]) by {
        if p < 0 {
            assert(t[i] == s[i]);
            if j < s.len() {
                assert(t[j] == s[j]);
            }
        } else {
            assert(i != p ==> t[i] == s[i]);
            assert(j != p ==> t[j] == s[j]);
            assert(key(s[i]) != key(s[j]));
        }
    }
}

impl Scan {
    /// Whether no location occurs twice.
    pub open spec fn wf(&self) -> bool {
        keys_unique(self@)
    }

    /// A scan of nothing.
    pub fn new() -> (res: Scan)
        ensures
            res.wf(),
            res@ == Seq::<Entry>::empty(),
    {
        let res = Scan { entries: Vec::new() };
        assert(res@ =~= Seq::<Entry>::empty());
        res
    }

    fn find(&self, rel: &PathBuf) -> (res: Option<usize>)
        requires
            self.wf(),
        ensures
            match res {
                Some(i) => position(self@, components(rel@)) == i && i < self.entries@.len(),
                None => position(self@, components(rel@)) == -1,
            },
    {
        proof {
            lemma_position(self@, components(rel@));
        }
        let ghost p = position(self@, components(rel@));
        for i in 0..self.entries.len()
            invariant
                self.wf(),
                p == position(self@, components(rel@)),
                -1 <= p < self@.len(),
                p >= 0 ==> key(self@[p]) == components(rel@),
                p >= 0 ==> i <= p,
        {
            if self.entries[i].rel_path.same(rel) {
                proof {
                    assert(key(self@[i as int]) == components(rel@));
                    if p < 0 {
                        lemma_position(self@, components(rel@));
                    } else if i < p {
                        assert(key(self@[i as int]) != key(self@[p]));
                    }
                }
                return Some(i);
            }
            assert(self@[i as int] == self.entries@[i as int]@);
        }
        None
    }

    /// The entry at `rel`, if there is one.
    pub fn get(&self, rel: &PathBuf) -> (res: Option<&FileEntry>)
        requires
            self.wf(),
        ensures
            match res {
                Some(e) => lookup(self@, components(rel@)) == Some(e@),
                None => lookup(self@, components(rel@)) is None,
            },
    {
        match self.find(rel) {
            Some(i) => {
                assert(self@[i as int] == self.entries@[i as int]@);
                Some(&self.entries[i])
            },
            None => None,
        }
    }

    /// Whether there is an entry at `rel`.
    pub fn contains_key(&self, rel: &PathBuf) -> (res: bool)
        requires
            self.wf(),
        ensures
            res == (lookup(self@, components(rel@)) is Some),
    {
        self.find(rel).is_some()
    }

    /// Record `entry`, in place of what was at its location.
    pub fn insert(&mut self, entry: FileEntry)
        requires
            old(self).wf(),
        ensures
            final(self).wf(),
            final(self)@ == inserted(old(self)@, entry@),
    {
        proof {
            lemma_inserted(self@, entry@);
        }
        match self.find(&entry.rel_path) {
            Some(i) => {
                self.entries.set(i, entry);
            },
            None => {
                self.entries.push(entry);
            },
        }
        assert(self@ =~= inserted(old(self)@, entry@));
    }
}

// --- Actions ---------------------------------------------------------------

/// A single change to bring one destination in line with the source. Every
/// variant carries the destination-relative path it acts on.
#[derive(Debug, PartialEq, Eq)]
pub enum SyncAction {
    /// Create a directory that exists in the source but not the destination.
    CreateDir { rel_path: PathBuf },
    /// Copy a file present in the source but missing from the destination.
    Copy { rel_path: PathBuf, size: u64 },
    /// Replace a destination file whose contents differ from the source.
    Overwrite { rel_path: PathBuf, size: u64 },
    /// Remove a destination entry that no longer exists in the source.
    Delete { rel_path: PathBuf, is_dir: bool },
}

/// What an action says, with its path as plain bytes.
pub enum Act {
    CreateDir(Seq<u8>),
    Copy(Seq<u8>, u64),
    Overwrite(Seq<u8>, u64),
    Delete(Seq<u8>, bool),
}

impl Act {
    /// The path acted on.
    pub open spec fn rel(self) -> Seq<u8> {
        match self {
            Act::CreateDir(rel) => rel,
            Act::Copy(rel, _) => rel,
            Act::Overwrite(rel, _) => rel,
            Act::Delete(rel, _) => rel,
        }
    }
}

impl View for SyncAction {
    type V = Act;

    open spec fn view(&self) -> Act {
        match self {
            SyncAction::CreateDir { rel_path } => Act::CreateDir(rel_path@),
            SyncAction::Copy { rel_path, size } => Act::Copy(rel_path@, *size),
            SyncAction::Overwrite { rel_path, size } => Act::Overwrite(rel_path@, *size),
            SyncAction::Delete { rel_path, is_dir } => Act::Delete(rel_path@, *is_dir),
        }
    }
}

impl Clone for SyncAction {
    fn clone(&self) -> (res: SyncAction)
        ensures
            res@ == self@,
    {
        match self {
            SyncAction::CreateDir { rel_path } => SyncAction::CreateDir {
                rel_path: rel_path.clone(),
            },
            SyncAction::Copy { rel_path, size } => SyncAction::Copy {
                rel_path: rel_path.clone(),
                size: *size,
            },
            SyncAction::Overwrite { rel_path, size } => SyncAction::Overwrite {
                rel_path: rel_path.clone(),
                size: *size,
            },
            SyncAction::Delete { rel_path, is_dir } => SyncAction::Delete {
                rel_path: rel_path.clone(),
                is_dir: *is_dir,
            },
        }
    }
}

/// The word that stands for an action in lists.
pub open spec fn action_label(a: Act) -> Seq<char> {
    match a {
        Act::CreateDir(_) => "mkdir"@,
        Act::Copy(_, _) => "copy"@,
        Act::Overwrite(_, _) => "update"@,
        Act::Delete(_, _) => "delete"@,
    }
}

impl SyncAction {
    /// The destination-relative path this action operates on.
    pub fn rel_path(&self) -> (res: &PathBuf)
        ensures
            res@ == self@.rel(),
    {
        match self {
            SyncAction::CreateDir { rel_path } => rel_path,
            SyncAction::Copy { rel_path, size: _ } => rel_path,
            SyncAction::Overwrite { rel_path, size: _ } => rel_path,
            SyncAction::Delete { rel_path, is_dir: _ } => rel_path,
        }
    }

    /// A short, stable label for display.
    pub fn label(&self) -> (res: &'static str)
        ensures
            res@ == action_label(self@),
    {
        match self {
            SyncAction::CreateDir { rel_path: _ } => "mkdir",
            SyncAction::Copy { rel_path: _, size: _ } => "copy",
            SyncAction::Overwrite { rel_path: _, size: _ } => "update",
            SyncAction::Delete { rel_path: _, is_dir: _ } => "delete",
        }
    }
}

/// The actions of a list, with their paths as plain bytes.
pub open spec fn acts(s: Seq<SyncAction>) -> Seq<Act> {
    s.map_values(|a: SyncAction| a@)
}

/// Appending to a list of actions appends to what it says.
pub proof fn lemma_acts_push(s: Seq<SyncAction>, a: SyncAction)
    ensures
        acts(s.push(a)) == acts(s).push(a@),
{
    assert(acts(s.push(a)) =~= acts(s).push(a@));
}

/// Aggregate counts for a [`Plan`].
#[derive(Debug, Clone, Copy, PartialEq, Eq, Structural)]
pub struct Stats {
    pub create_dirs: usize,
    pub copies: usize,
    pub overwrites: usize,
    pub deletes: usize,
    /// Total bytes to be written (copies and overwrites).
    pub bytes: u64,
}

impl Default for Stats {
    fn default() -> (res: Stats)
        ensures
            res == (Stats { create_dirs: 0, copies: 0, overwrites: 0, deletes: 0, bytes: 0 }),
    {
        Stats { create_dirs: 0, copies: 0, overwrites: 0, deletes: 0, bytes: 0 }
    }
}

/// The actions that mirror the source into one destination, in the order in which
/// they are applied, with a summary.
#[derive(Debug)]
pub struct Plan {
    pub actions: Vec<SyncAction>,
    pub stats: Stats,
}

impl Plan {
    /// The planned actions, with their paths as plain bytes.
    pub open spec fn acts(&self) -> Seq<Act> {
        acts(self.actions@)
    }

    /// True when the destination already matches the source.
    pub fn is_empty(&self) -> (res: bool)
        ensures
            res == (self.acts().len() == 0),
    {
        self.actions.len() == 0
    }
}

impl Default for Plan {
    fn default() -> (res: Plan)
        ensures
            res.acts().len() == 0,
            res.stats == (Stats { create_dirs: 0, copies: 0, overwrites: 0, deletes: 0, bytes: 0 }),
    {
        Plan { actions: Vec::new(), stats: Stats::default() }
    }
}

impl Clone for Plan {
    fn clone(&self) -> (res: Plan)
        ensures
            res.acts() == self.acts(),
            res.stats == self.stats,
    {
        let mut actions: Vec<SyncAction> = Vec::new();
        for i in 0..self.actions.len()
            invariant
                acts(actions@) == acts(self.actions@).take(i as int),
        {
            let a = self.actions[i].clone();
            proof {
                lemma_acts_push(actions@, a);
                assert(acts(self.actions@).take(i + 1) =~= acts(self.actions@).take(i as int).push(
                    acts(self.actions@)[i as int],
                ));
            }
            actions.push(a);
        }
        assert(acts(actions@) =~= acts(self.actions@));
        Plan { actions, stats: self.stats }
    }
}

// --- Laws ------------------------------------------------------------------

/// A scan gives back what was recorded last at a place, and recording at one place leaves
/// every other as it was.
pub proof fn law_records_are_found_again(s: Seq<Entry>, e: Entry, k: Seq<Seq<u8>>)
    requires
        keys_unique(s),
    ensures
        lookup(inserted(s, e), key(e)) == Some(e),
        k != key(e) ==> lookup(inserted(s, e), k) == lookup(s, k),
        lookup(Seq::empty(), k) is None,
{
    let t = inserted(s, e);
    let p = position(s, key(e));
    lemma_position(s, key(e));
    lemma_position(t, key(e));
    lemma_inserted(s, e);
    let at = if p >= 0 {
        p
    } else {
        s.len() as int
    };
    assert(t[at] == e);
    let q = position(t, key(e));
    assert(q >= 0);
    if q < at {
        assert(key(t[q]) != key(t[at]));
    } else if at < q {
        assert(key(t[at]) != key(t[q]));
    }
    if k != key(e) {
        lemma_position(s, k);
        lemma_position(t, k);
        let a = position(s, k);
        let b = position(t, k);
        if a >= 0 {
            assert(t[a] == s[a]);
            assert(b >= 0);
            if a < b {
                assert(key(t[a]) != key(t[b]));
            } else if b < a {
                assert(key(t[b]) != key(t[a]));
            }
        } else if b >= 0 {
            assert(b != at);
            assert(t[b] == s[b]);
        }
    }
}

} // verus!
