//! Encrypted backups of the source: where archives go and what they are called, which
//! old ones are removed, and the steps of a run.

use vstd::prelude::*;
use vstd::string::*;
use vstd::utf8::*;

use crate::clock::{
    compact_text, law_compact_is_rfc3339_without_marks, law_stamps_sort_by_time, lemma_stamp_chars,
    Moment,
};
use crate::engine::scan::{
    all_below, first_stray, lemma_first_stray_take, without_links, Found, ScanError,
};
use crate::path::{
    byte_order, climbs, components, file_name_of, is_name, is_part, is_rooted, is_sorted_form,
    is_within, joined, law_parent_components, law_siblings_are_ordered_by_name,
    law_stripped_components, law_stripped_joins_back, lemma_part_joins, lies_inside, overlap,
    parent_of, path_bytes, path_order, same_path, sort_paths, stripped, Order, PathBuf, DOT, SLASH,
};
use crate::resolve::Place;
use crate::store::BackupSettings;
use crate::text::{self, lossy_text, trim_end, trim_start, trimmed_char};

pub mod crypto;
pub mod job;
pub mod key;
pub mod restore;

verus! {

/// What the name of an archive ends with.
pub const ARCHIVE_EXT: &'static str = ".tar.gz.age";

/// Progress of a backup.
#[derive(Debug, Clone, Copy, PartialEq, Eq, Structural)]
pub enum BackupEvent {
    /// About to ask for the recipient.
    FetchingKey,
    /// Started to archive the source.
    Archiving,
    /// So many bytes of the archive are written.
    Progress { bytes: u64 },
    /// Removing older archives.
    Pruning,
}

/// Outcome of a backup.
#[derive(Debug)]
pub struct BackupReport {
    /// The archive that was (or, on a dry run, would be) written.
    pub archive_path: PathBuf,
    /// Regular files included.
    pub files: usize,
    /// Size of the archive in bytes (dry run: size of the source).
    pub bytes: u64,
    /// How many older archives were removed.
    pub pruned: usize,
    /// True if nothing was written.
    pub dry_run: bool,
}

impl Clone for BackupReport {
    fn clone(&self) -> (res: BackupReport)
        ensures
            res.archive_path@ == self.archive_path@,
            res.files == self.files,
            res.bytes == self.bytes,
            res.pruned == self.pruned,
            res.dry_run == self.dry_run,
    {
        BackupReport {
            archive_path: self.archive_path.clone(),
            files: self.files,
            bytes: self.bytes,
            pruned: self.pruned,
            dry_run: self.dry_run,
        }
    }
}

// --- Folders ---------------------------------------------------------------

/// The default root of all backups, in the home directory.
pub fn default_backup_root(home: &PathBuf) -> (res: PathBuf)
    ensures
        res@ == joined(home@, encode_utf8("bukagu-backups"@)),
{
    home.join(&PathBuf::of("bukagu-backups"))
}

/// Whether a character may stand in the name of a backup folder.
pub open spec fn is_safe_char(c: char) -> bool {
    ||| '0' <= c <= '9'
    ||| 'A' <= c <= 'Z'
    ||| 'a' <= c <= 'z'
    ||| c == '-'
    ||| c == '_'
    ||| c == '.'
}

/// A text with `_` in place of every character that is not safe.
pub open spec fn cleaned(s: Seq<char>) -> Seq<char> {
    s.map_values(
        |c: char|
            if is_safe_char(c) {
                c
            } else {
                '_'
            },
    )
}

/// The name of the backup folder for a folder name: cleaned, without dots at its ends.
pub open spec fn safe_name(raw: Seq<char>) -> Seq<char> {
    let name = trimmed_char(cleaned(raw), '.');
    if name.len() == 0 {
        "project"@
    } else {
        name
    }
}

/// The file name of a path as text, where it has one that is UTF-8.
pub open spec fn name_text(p: Seq<u8>) -> Option<Seq<char>> {
    match file_name_of(p) {
        Some(name) => if valid_utf8(name) {
            Some(decode_utf8(name))
        } else {
            None
        },
        None => None,
    }
}

/// The name of the backup folder for a project root.
pub open spec fn project_folder(root: Seq<u8>) -> Seq<char> {
    match name_text(root) {
        Some(raw) => safe_name(raw),
        None => safe_name("project"@),
    }
}

fn clean_char(c: char) -> (res: char)
    ensures
        res == (if is_safe_char(c) {
            c
        } else {
            '_'
        }),
{
    if ('0' <= c && c <= '9') || ('A' <= c && c <= 'Z') || ('a' <= c && c <= 'z') || c == '-' || c
        == '_' || c == '.' {
        c
    } else {
        '_'
    }
}

/// A folder name, safe on every file system, for a project root.
pub fn project_name(project_root: &PathBuf) -> (res: String)
    ensures
        res@ == project_folder(project_root@),
{
    let raw = match project_root.file_name_text() {
        Some(name) => name,
        None => "project".to_owned(),
    };
    let chars = text::chars_of(raw.as_str());
    let mut clean = String::new();
    for i in 0..chars.len()
        invariant
            clean@ == cleaned(chars@).take(i as int),
    {
        clean.push(clean_char(chars[i]));
        assert(cleaned(chars@).take(i + 1) =~= cleaned(chars@).take(i as int).push(
            cleaned(chars@)[i as int],
        ));
    }
    assert(cleaned(chars@).take(chars@.len() as int) =~= cleaned(chars@));
    let name = text::trim_char(clean.as_str(), '.');
    if name.as_str().unicode_len() == 0 {
        "project".to_owned()
    } else {
        name
    }
}

/// The folder that holds a project's backups: below the configured root, or else below
/// the default root in `home`. Nothing where there is neither.
pub fn resolve_backup_dir(settings: &BackupSettings, home: &Option<PathBuf>, project_root: &PathBuf)
    -> (res: Option<PathBuf>)
    ensures
        match (settings.root, *home) {
            (Some(root), _) => res matches Some(dir) && dir@ == joined(
                root@,
                encode_utf8(project_folder(project_root@)),
            ),
            (None, Some(h)) => res matches Some(dir) && dir@ == joined(
                joined(h@, encode_utf8("bukagu-backups"@)),
                encode_utf8(project_folder(project_root@)),
            ),
            (None, None) => res is None,
        },
{
    let name = PathBuf::of(project_name(project_root).as_str());
    match &settings.root {
        Some(root) => Some(root.join(&name)),
        None => match home {
            Some(h) => Some(default_backup_root(h).join(&name)),
            None => None,
        },
    }
}

// --- Guard -----------------------------------------------------------------

/// Why a backup folder is refused. Paths are given as they really lie.
#[derive(Debug, PartialEq, Eq)]
pub enum BackupDirError {
    /// The backup folder is the source.
    IsSource(PathBuf),
    /// The backup folder lies inside the source.
    InsideSource { backup_dir: PathBuf, source: PathBuf },
    /// The source lies inside the backup folder.
    ContainsSource { source: PathBuf, backup_dir: PathBuf },
}

/// The sentence in which a refusal is reported.
pub open spec fn backup_dir_error_text(e: BackupDirError) -> Seq<char> {
    match e {
        BackupDirError::IsSource(p) =>
            "refusing to back up: the backup folder equals the source ("@ + lossy_text(p@) + ")"@,
        BackupDirError::InsideSource { backup_dir, source } =>
            "refusing to back up: the backup folder "@ + lossy_text(backup_dir@)
            + " is inside the source "@ + lossy_text(source@),
        BackupDirError::ContainsSource { source, backup_dir } =>
            "refusing to back up: the source "@ + lossy_text(source@)
            + " is inside the backup folder "@ + lossy_text(backup_dir@),
    }
}

impl BackupDirError {
    /// A one-line description.
    pub fn message(&self) -> (res: String)
        ensures
            res@ == backup_dir_error_text(*self),
    {
        match self {
            BackupDirError::IsSource(p) => text::concat3(
                "refusing to back up: the backup folder equals the source (",
                p.display().as_str(),
                ")",
            ),
            BackupDirError::InsideSource { backup_dir, source } => {
                let mut s = "refusing to back up: the backup folder ".to_owned();
                s.append(backup_dir.display().as_str());
                s.append(" is inside the source ");
                s.append(source.display().as_str());
                s
            },
            BackupDirError::ContainsSource { source, backup_dir } => {
                let mut s = "refusing to back up: the source ".to_owned();
                s.append(source.display().as_str());
                s.append(" is inside the backup folder ");
                s.append(backup_dir.display().as_str());
                s
            },
        }
    }
}

/// What refuses a backup folder that reaches the source.
pub open spec fn dir_refused(e: BackupDirError, src: Seq<u8>, dst: Seq<u8>) -> bool {
    if same_path(dst, src) {
        e matches BackupDirError::IsSource(p) && p@ == src
    } else if is_within(dst, src) {
        e matches BackupDirError::InsideSource { backup_dir, source } && backup_dir@ == dst
            && source@ == src
    } else {
        &&& is_within(src, dst)
        &&& e matches BackupDirError::ContainsSource { source, backup_dir } && backup_dir@ == dst
            && source@ == src
    }
}

/// Refuse any layout in which the backup folder could reach the source.
pub fn guard_backup_dir(source: &Place, backup_dir: &Place) -> (res: Result<(), BackupDirError>)
    ensures
        match res {
            Ok(()) => !overlap(source.resolved@, backup_dir.resolved@),
            Err(e) => dir_refused(e, source.resolved@, backup_dir.resolved@),
        },
{
    let src = &source.resolved;
    let dst = &backup_dir.resolved;
    if dst.same(src) {
        return Err(BackupDirError::IsSource(src.clone()));
    }
    if dst.starts_with(src) {
        return Err(BackupDirError::InsideSource { backup_dir: dst.clone(), source: src.clone() });
    }
    if src.starts_with(dst) {
        return Err(BackupDirError::ContainsSource { source: src.clone(), backup_dir: dst.clone() });
    }
    Ok(())
}

// --- Archives --------------------------------------------------------------

/// The name of the archive made at a time.
pub open spec fn archive_name(stamp: Seq<char>) -> Seq<char> {
    stamp + ARCHIVE_EXT@
}

/// The hidden name under which an archive is written before it is complete.
pub open spec fn partial_name(stamp: Seq<char>) -> Seq<char> {
    "."@ + stamp + ARCHIVE_EXT@ + ".partial"@
}

/// Where the archive made at a time lies, and where it is written first.
pub fn archive_paths(backup_dir: &PathBuf, stamp: &str) -> (res: (PathBuf, PathBuf))
    ensures
        res.0@ == joined(backup_dir@, encode_utf8(archive_name(stamp@))),
        res.1@ == joined(backup_dir@, encode_utf8(partial_name(stamp@))),
{
    let name = text::concat(stamp, ARCHIVE_EXT);
    let mut partial = ".".to_owned();
    partial.append(stamp);
    partial.append(ARCHIVE_EXT);
    partial.append(".partial");
    (
        backup_dir.join(&PathBuf::of(name.as_str())),
        backup_dir.join(&PathBuf::of(partial.as_str())),
    )
}

/// Something found in a backup folder.
#[derive(Debug)]
pub struct DirItem {
    pub path: PathBuf,
    pub is_file: bool,
}

/// Whether a name is that of a complete archive.
pub open spec fn is_archive_name(name: Seq<char>) -> bool {
    !"."@.is_prefix_of(name) && ARCHIVE_EXT@.is_suffix_of(name)
}

/// Whether something is one of the archives, and not one being written.
pub open spec fn is_archive_item(item: DirItem) -> bool {
    item.is_file && (name_text(item.path@) matches Some(name) && is_archive_name(name))
}

/// Whether `item` is one of the archives, and not one being written.
pub fn is_archive(item: &DirItem) -> (res: bool)
    ensures
        res == is_archive_item(*item),
{
    if !item.is_file {
        return false;
    }
    match item.path.file_name_text() {
        Some(name) => !text::starts_with(name.as_str(), ".") && text::ends_with(
            name.as_str(),
            ARCHIVE_EXT,
        ),
        None => false,
    }
}

/// The archives among what was found, as it was found.
pub open spec fn archives_in(items: Seq<DirItem>) -> Seq<Seq<u8>>
    decreases items.len(),
{
    if items.len() == 0 {
        Seq::empty()
    } else if is_archive_item(items.last()) {
        archives_in(items.drop_last()).push(items.last().path@)
    } else {
        archives_in(items.drop_last())
    }
}

fn find_archives(items: &Vec<DirItem>) -> (res: Vec<PathBuf>)
    ensures
        path_bytes(res@) == archives_in(items@),
{
    let mut out: Vec<PathBuf> = Vec::new();
    assert(path_bytes(out@) =~= Seq::empty());
    for i in 0..items.len()
        invariant
            path_bytes(out@) == archives_in(items@.take(i as int)),
    {
        assert(items@.take(i + 1).drop_last() =~= items@.take(i as int));
        let ghost before = path_bytes(out@);
        if is_archive(&items[i]) {
            let p = items[i].path.clone();
            assert(path_bytes(out@.push(p)) =~= before.push(p@));
            out.push(p);
        }
    }
    assert(items@.take(items@.len() as int) =~= items@);
    out
}

/// Whether `removed` are the oldest archives, as many as there are beyond `retention`;
/// none where `retention` is 0. Stamps sort by time, so the oldest come first.
pub open spec fn is_pruning(removed: Seq<Seq<u8>>, archives: Seq<Seq<u8>>, retention: usize) -> bool {
    if retention == 0 || archives.len() <= retention {
        removed.len() == 0
    } else {
        exists|sorted: Seq<Seq<u8>>| #[trigger]
            is_sorted_form(sorted, archives) && removed == sorted.take(
                archives.len() - retention as int,
            )
    }
}

/// The archives to remove so that the `retention` newest are left; 0 keeps all.
pub fn prune(items: &Vec<DirItem>, retention: usize) -> (res: Vec<PathBuf>)
    ensures
        is_pruning(path_bytes(res@), archives_in(items@), retention),
{
    let mut out: Vec<PathBuf> = Vec::new();
    if retention == 0 {
        return out;
    }
    let archives = find_archives(items);
    assert(path_bytes(archives@).len() == archives@.len());
    if archives.len() <= retention {
        return out;
    }
    let sorted = sort_paths(&archives);
    let n: usize = archives.len() - retention;
    for i in 0..n
        invariant
            n <= sorted@.len(),
            out@.len() == i,
            forall|k: int| #![trigger out@[k]] 0 <= k < i ==> out@[k]@ == sorted@[k]@,
    {
        out.push(sorted[i].clone());
    }
    assert(path_bytes(out@) =~= path_bytes(sorted@).take(n as int));
    out
}

// --- Contents --------------------------------------------------------------

/// One entry of an archive.
#[derive(Debug)]
pub struct PackEntry {
    /// Its name in the archive, relative to the source.
    pub rel: PathBuf,
    pub path: PathBuf,
    pub is_dir: bool,
}

/// What a [`PackEntry`] says, with its paths as plain bytes.
pub struct Packed {
    pub rel: Seq<u8>,
    pub path: Seq<u8>,
    pub is_dir: bool,
}

impl View for PackEntry {
    type V = Packed;

    open spec fn view(&self) -> Packed {
        Packed { rel: self.rel@, path: self.path@, is_dir: self.is_dir }
    }
}

/// What an archive of a source holds: everything met in it but links.
pub open spec fn packed(root: Seq<u8>, found: Seq<Found>) -> Seq<Packed>
    decreases found.len(),
{
    if found.len() == 0 {
        Seq::empty()
    } else {
        let rest = packed(root, found.drop_last());
        let f = found.last();
        match stripped(f.path@, root) {
            Some(rel) => if f.is_symlink {
                rest
            } else {
                rest.push(Packed { rel, path: f.path@, is_dir: f.is_dir })
            },
            None => rest,
        }
    }
}

/// How many entries are not directories.
pub open spec fn file_count(s: Seq<Packed>) -> nat
    decreases s.len(),
{
    if s.len() == 0 {
        0
    } else {
        file_count(s.drop_last()) + (if s.last().is_dir {
            0nat
        } else {
            1
        })
    }
}

/// The contents of an archive and how many of its entries are files.
#[derive(Debug)]
pub struct PackList {
    pub entries: Vec<PackEntry>,
    pub files: usize,
}

/// The entries of a list, with their paths as plain bytes.
pub open spec fn packed_view(s: Seq<PackEntry>) -> Seq<Packed> {
    s.map_values(|e: PackEntry| e@)
}

/// What to archive of a source, in the order in which it was met. Links are skipped;
/// directories are kept, so that empty ones survive.
pub fn pack(root: &PathBuf, found: &Vec<Found>) -> (res: Result<PackList, ScanError>)
    ensures
        match res {
            Ok(list) => {
                &&& first_stray(root@, found@) is None
                &&& packed_view(list.entries@) == packed(root@, found@)
                &&& list.files == file_count(packed(root@, found@))
            },
            Err(ScanError::NotBelowRoot(p)) => first_stray(root@, found@) == Some(p@),
        },
{
    let mut entries: Vec<PackEntry> = Vec::new();
    let mut files: usize = 0;
    assert(packed_view(entries@) =~= Seq::empty());
    for i in 0..found.len()
        invariant
            packed_view(entries@) == packed(root@, found@.take(i as int)),
            files == file_count(packed_view(entries@)),
            files <= entries@.len(),
            first_stray(root@, found@.take(i as int)) is None,
    {
        let f = &found[i];
        let ghost before = packed_view(entries@);
        proof {
            assert(found@.take(i + 1).drop_last() =~= found@.take(i as int));
            assert(found@.take(i + 1).last() == found@[i as int]);
        }
        match f.path.strip_prefix(root) {
            Some(rel) => {
                if !f.is_symlink {
                    let e = PackEntry { rel, path: f.path.clone(), is_dir: f.is_dir };
                    proof {
                        assert(packed_view(entries@.push(e)) =~= before.push(e@));
                        assert(before.push(e@).drop_last() =~= before);
                    }
                    entries.push(e);
                    let _count: usize = entries.len();
                    if !f.is_dir {
                        files += 1;
                    }
                }
            },
            None => {
                if !f.is_symlink {
                    proof {
                        lemma_first_stray_take(root@, found@, i + 1);
                    }
                    return Err(ScanError::NotBelowRoot(f.path.clone()));
                }
            },
        }
    }
    assert(found@.take(found@.len() as int) =~= found@);
    Ok(PackList { entries, files })
}

/// How many regular files were met, links left out.
pub open spec fn regular_files(found: Seq<Found>) -> nat
    decreases found.len(),
{
    if found.len() == 0 {
        0
    } else {
        regular_files(found.drop_last()) + (if !found.last().is_symlink && found.last().is_file {
            1nat
        } else {
            0
        })
    }
}

/// The sizes of the regular files that were met, added up.
pub open spec fn regular_bytes(found: Seq<Found>) -> nat
    decreases found.len(),
{
    if found.len() == 0 {
        0
    } else {
        regular_bytes(found.drop_last()) + (if !found.last().is_symlink && found.last().is_file {
            found.last().len as nat
        } else {
            0
        })
    }
}

proof fn lemma_regular_bytes_take(found: Seq<Found>, i: int)
    requires
        0 <= i <= found.len(),
    ensures
        regular_bytes(found.take(i)) <= regular_bytes(found),
    decreases found.len(),
{
    if i == found.len() {
        assert(found.take(i) =~= found);
    } else {
        lemma_regular_bytes_take(found.drop_last(), i);
        assert(found.drop_last().take(i) =~= found.take(i));
    }
}

/// The number of regular files of a source and their total size, for the preview.
/// Nothing where the size does not fit.
pub fn source_stats(found: &Vec<Found>) -> (res: Option<(usize, u64)>)
    ensures
        match res {
            Some((files, bytes)) => files == regular_files(found@) && bytes == regular_bytes(
                found@,
            ),
            None => regular_bytes(found@) > u64::MAX,
        },
{
    let mut files: usize = 0;
    let mut bytes: u64 = 0;
    for i in 0..found.len()
        invariant
            files == regular_files(found@.take(i as int)),
            bytes == regular_bytes(found@.take(i as int)),
            files <= i,
    {
        proof {
            assert(found@.take(i + 1).drop_last() =~= found@.take(i as int));
            assert(found@.take(i + 1).last() == found@[i as int]);
            lemma_regular_bytes_take(found@, i + 1);
        }
        let f = &found[i];
        if !f.is_symlink && f.is_file {
            if f.len > u64::MAX - bytes {
                return None;
            }
            files += 1;
            bytes += f.len;
        }
    }
    assert(found@.take(found@.len() as int) =~= found@);
    Some((files, bytes))
}

// --- Progress --------------------------------------------------------------

/// Progress is reported every so many bytes.
pub const PROGRESS_STEP: u64 = 262_144;

/// Counts what is written of an archive, and says when to report it.
#[derive(Debug, Clone, Copy, PartialEq, Eq, Structural)]
pub struct WriteMeter {
    pub written: u64,
    pub reported: u64,
}

impl WriteMeter {
    /// A meter that has counted nothing.
    pub fn new() -> (res: WriteMeter)
        ensures
            res.written == 0,
            res.reported == 0,
    {
        WriteMeter { written: 0, reported: 0 }
    }

    /// Count `n` more bytes; gives the event to report, if it is time for one.
    pub fn advance(&mut self, n: usize) -> (res: Option<BackupEvent>)
        requires
            old(self).reported <= old(self).written,
            old(self).written + n <= u64::MAX,
        ensures
            final(self).written == old(self).written + n,
            final(self).reported <= final(self).written,
            if final(self).written - old(self).reported >= PROGRESS_STEP {
                &&& final(self).reported == final(self).written
                &&& res == Some(BackupEvent::Progress { bytes: final(self).written })
            } else {
                &&& final(self).reported == old(self).reported
                &&& res is None
            },
    {
        self.written += n as u64;
        if self.written - self.reported >= PROGRESS_STEP {
            self.reported = self.written;
            Some(BackupEvent::Progress { bytes: self.written })
        } else {
            None
        }
    }
}

// --- Laws ------------------------------------------------------------------

proof fn lemma_trim_keeps(s: Seq<char>, drop: spec_fn(char) -> bool, p: spec_fn(char) -> bool)
    requires
        forall|i: int| 0 <= i < s.len() ==> p(#[trigger] s[i]),
    ensures
        forall|i: int| 0 <= i < trim_start(s, drop).len() ==> p(#[trigger] trim_start(s, drop)[i]),
        forall|i: int| 0 <= i < trim_end(s, drop).len() ==> p(#[trigger] trim_end(s, drop)[i]),
        trim_start(s, drop).len() > 0 ==> !drop(trim_start(s, drop)[0]),
        trim_end(s, drop).len() > 0 ==> !drop(trim_end(s, drop).last()) && trim_end(s, drop)[0]
            == s[0],
    decreases s.len(),
{
    if s.len() > 0 {
        let a = s.drop_first();
        let b = s.drop_last();
        assert forall|i: int| 0 <= i < a.len() implies p(#[trigger] a[i]) by {
            assert(a[i] == s[i + 1]);
        }
        assert forall|i: int| 0 <= i < b.len() implies p(#[trigger] b[i]) by {
            assert(b[i] == s[i]);
        }
        lemma_trim_keeps(a, drop, p);
        lemma_trim_keeps(b, drop, p);
    }
}

/// The name of a backup folder is never empty, `.` or `..`, and names no path of more
/// than one folder: it is made of safe characters and neither starts nor ends with a
/// dot.
pub proof fn law_folder_names_are_safe(raw: Seq<char>)
    ensures
        safe_name(raw).len() > 0,
        safe_name(raw)[0] != '.',
        safe_name(raw).last() != '.',
        forall|i: int| 0 <= i < safe_name(raw).len() ==> is_safe_char(#[trigger] safe_name(raw)[i]),
{
    reveal_strlit("project");
    let s = cleaned(raw);
    let safe = |c: char| is_safe_char(c);
    let dot = text::is_char('.');
    assert forall|i: int| 0 <= i < s.len() implies safe(#[trigger] s[i]) by {}
    lemma_trim_keeps(s, dot, safe);
    let a = trim_start(s, dot);
    assert forall|i: int| 0 <= i < a.len() implies safe(#[trigger] a[i]) by {}
    lemma_trim_keeps(a, dot, safe);
    let name = trimmed_char(s, '.');
    if name.len() > 0 {
        assert(!dot(name.last()));
        assert(a.len() > 0) by {
            if a.len() == 0 {
                assert(trim_end(a, dot) == a);
            }
        }
        assert(!dot(a[0]));
        assert forall|i: int| 0 <= i < name.len() implies is_safe_char(#[trigger] name[i]) by {
            assert(safe(name[i]));
        }
    }
}

/// An archive that is still being written is never taken for a complete one, so a
/// crash leaves nothing behind that looks like a backup.
pub proof fn law_partial_archives_are_hidden(stamp: Seq<char>)
    ensures
        !is_archive_name(partial_name(stamp)),
{
    reveal_strlit(".");
    let name = partial_name(stamp);
    assert(name.subrange(0, 1) =~= "."@);
}

/// A complete archive is recognised by its name.
pub proof fn law_archives_are_recognised(stamp: Seq<char>)
    requires
        stamp.len() > 0,
        stamp[0] != '.',
    ensures
        is_archive_name(archive_name(stamp)),
{
    reveal_strlit(".");
    let name = archive_name(stamp);
    assert(name.subrange(stamp.len() as int, name.len() as int) =~= ARCHIVE_EXT@);
    if "."@.is_prefix_of(name) {
        assert(name.subrange(0, 1)[0] == name[0]);
    }
}

/// Pruning leaves exactly the `retention` newest archives: none that is kept comes
/// before one that is removed.
pub proof fn law_pruning_keeps_the_newest(
    removed: Seq<Seq<u8>>,
    archives: Seq<Seq<u8>>,
    retention: usize,
)
    requires
        is_pruning(removed, archives, retention),
        0 < retention < archives.len(),
    ensures
        exists|kept: Seq<Seq<u8>>|
            {
                &&& kept.len() == retention
                &&& is_sorted_form(#[trigger] (removed + kept), archives)
            },
{
    let sorted = choose|sorted: Seq<Seq<u8>>| #[trigger]
        is_sorted_form(sorted, archives) && removed == sorted.take(
            archives.len() - retention as int,
        );
    broadcast use vstd::seq_lib::group_to_multiset_ensures;
    assert(sorted.len() == archives.len()) by {
        assert(sorted.to_multiset().len() == archives.to_multiset().len());
    }
    let kept = sorted.skip(archives.len() - retention as int);
    assert(removed + kept =~= sorted);
}

/// Links make no difference to a backup: neither to what is archived nor to what a
/// preview counts.
pub proof fn law_links_are_not_archived(root: Seq<u8>, found: Seq<Found>)
    ensures
        packed(root, without_links(found)) == packed(root, found),
        regular_files(without_links(found)) == regular_files(found),
        regular_bytes(without_links(found)) == regular_bytes(found),
    decreases found.len(),
{
    if found.len() > 0 {
        let rest = without_links(found.drop_last());
        law_links_are_not_archived(root, found.drop_last());
        assert(rest.push(found.last()).drop_last() =~= rest);
    }
}

/// A project's backups lie right below the root, in a folder whose name is safe and
/// depends on the name of the project alone.
pub proof fn law_backup_folders_lie_below_the_root(root: Seq<u8>, project: Seq<u8>)
    requires
        root.len() > 0,
    ensures
        ({
            let name = encode_utf8(project_folder(project));
            let dir = joined(root, name);
            &&& components(dir) == components(root).push(name)
            &&& parent_of(dir) matches Some(up) && same_path(up, root)
            &&& project_folder(project).len() > 0
            &&& project_folder(project)[0] != '.'
            &&& project_folder(project).last() != '.'
            &&& forall|i: int|
                0 <= i < project_folder(project).len() ==> is_safe_char(
                    #[trigger] project_folder(project)[i],
                )
            &&& forall|other: Seq<u8>|
                #![trigger project_folder(other)]
                file_name_of(other) == file_name_of(project) ==> project_folder(other)
                    == project_folder(project)
        }),
{
    let raw = match name_text(project) {
        Some(raw) => raw,
        None => "project"@,
    };
    law_folder_names_are_safe(raw);
    let text = project_folder(project);
    let name = encode_utf8(text);
    assert(is_ascii_chars(text));
    is_ascii_chars_encode_utf8(text);
    assert(name.len() > 0);
    assert(!name.contains(SLASH)) by {
        if name.contains(SLASH) {
            let i = choose|i: int| 0 <= i < name.len() && name[i] == SLASH;
            assert(is_safe_char(text[i]));
        }
    }
    assert(name != seq![DOT]) by {
        assert(name[0] == text[0] as u8);
        assert(seq![DOT][0] == DOT);
    }
    lemma_part_joins(root, name);
    let dir = joined(root, name);
    law_parent_components(dir);
    assert(components(root).push(name).drop_last() =~= components(root));
    assert(components(dir).last() == name);
    assert(name != seq![SLASH]) by {
        assert(seq![SLASH][0] == SLASH);
        if name == seq![SLASH] {
            assert(name.contains(name[0]));
        }
    }
}

/// Whether an entry of an archive stands for something met in the source: under the
/// path that it has there, relative and going nowhere up, so that it lies as far below
/// any folder that it is unpacked into.
pub open spec fn stands_for(e: Packed, f: Found, root: Seq<u8>) -> bool {
    &&& e.path == f.path@
    &&& e.is_dir == f.is_dir
    &&& !is_rooted(e.rel)
    &&& !climbs(e.rel)
    &&& same_path(joined(root, e.rel), f.path@)
}

/// An archive holds the source, no more and no less: an entry for everything met in it
/// but links, empty directories included, in the order in which it was met.
pub proof fn law_archives_hold_the_source(root: Seq<u8>, found: Seq<Found>)
    requires
        root.len() > 0,
        all_below(root, found),
    ensures
        packed(root, found).len() == without_links(found).len(),
        forall|i: int|
            #![trigger packed(root, found)[i]]
            0 <= i < packed(root, found).len() ==> stands_for(
                packed(root, found)[i],
                without_links(found)[i],
                root,
            ),
        first_stray(root, found) is None,
    decreases found.len(),
{
    if found.len() > 0 {
        let front = found.drop_last();
        let f = found.last();
        assert(found[found.len() - 1] == f);
        assert forall|i: int|
            #![trigger front[i]]
            0 <= i < front.len() && !front[i].is_symlink implies lies_inside(front[i].path@, root)
            && !same_path(front[i].path@, root) by {
            assert(front[i] == found[i]);
        }
        law_archives_hold_the_source(root, front);
        if !f.is_symlink {
            law_stripped_components(f.path@, root);
            law_stripped_joins_back(f.path@, root);
        }
    }
}

/// Pruning is exact: what is left are the newest archives, as many as the retention says
/// or all where there are no more, and all where the retention is 0. Nothing is removed
/// but archives, and none that is left comes before one that is removed.
pub proof fn law_pruning_is_exact(
    removed: Seq<Seq<u8>>,
    archives: Seq<Seq<u8>>,
    retention: usize,
)
    requires
        is_pruning(removed, archives, retention),
    ensures
        ({
            let left = archives.to_multiset().sub(removed.to_multiset());
            &&& removed.to_multiset().subset_of(archives.to_multiset())
            &&& left.len() == if retention == 0 || archives.len() <= retention {
                archives.len()
            } else {
                retention as nat
            }
            &&& removed.len() + left.len() == archives.len()
            &&& forall|gone: Seq<u8>, kept: Seq<u8>|
                #![trigger removed.contains(gone), left.contains(kept)]
                removed.contains(gone) && left.contains(kept) ==> path_order(gone, kept)
                    != Order::Greater
        }),
{
    broadcast use vstd::seq_lib::group_to_multiset_ensures;
    let all = archives.to_multiset();
    if retention == 0 || archives.len() <= retention {
        assert(removed =~= Seq::empty());
        assert(all.sub(removed.to_multiset()) =~= all);
    } else {
        let n = archives.len() - retention as int;
        let sorted = choose|sorted: Seq<Seq<u8>>| #[trigger]
            is_sorted_form(sorted, archives) && removed == sorted.take(n);
        assert(sorted.len() == archives.len()) by {
            assert(sorted.to_multiset().len() == archives.to_multiset().len());
        }
        let kept = sorted.skip(n);
        assert(sorted =~= removed + kept);
        vstd::seq_lib::lemma_multiset_commutative(removed, kept);
        assert(all =~= removed.to_multiset().add(kept.to_multiset()));
        let left = all.sub(removed.to_multiset());
        assert(left =~= kept.to_multiset());
        assert forall|gone: Seq<u8>, k: Seq<u8>|
            #![trigger removed.contains(gone), left.contains(k)]
            removed.contains(gone) && left.contains(k) implies path_order(gone, k)
            != Order::Greater by {
            assert(kept.contains(k));
            let i = choose|i: int| 0 <= i < removed.len() && removed[i] == gone;
            let j = choose|j: int| 0 <= j < kept.len() && kept[j] == k;
            assert(sorted[i] == gone && sorted[n + j] == k);
        }
    }
}

/// The archives of a folder are its regular files whose names are UTF-8, do not begin
/// with a dot and end with the ending of archives; each of them, in order, and nothing
/// else.
pub proof fn law_archives_are_told_by_their_names(items: Seq<DirItem>)
    ensures
        archives_in(items) == items.filter(
            |item: DirItem|
                item.is_file && (file_name_of(item.path@) matches Some(name) && valid_utf8(name)
                    && decode_utf8(name).len() > 0 && decode_utf8(name)[0] != '.'
                    && ".tar.gz.age"@.is_suffix_of(decode_utf8(name))),
        ).map_values(|item: DirItem| item.path@),
    decreases items.len(),
{
    let p = |item: DirItem|
        item.is_file && (file_name_of(item.path@) matches Some(name) && valid_utf8(name)
            && decode_utf8(name).len() > 0 && decode_utf8(name)[0] != '.'
            && ".tar.gz.age"@.is_suffix_of(decode_utf8(name)));
    let q = |item: DirItem| item.path@;
    reveal(Seq::filter);
    if items.len() > 0 {
        let front = items.drop_last();
        let x = items.last();
        law_archives_are_told_by_their_names(front);
        assert(p(x) == is_archive_item(x)) by {
            reveal_strlit(".");
            reveal_strlit(".tar.gz.age");
            if name_text(x.path@) is Some {
                let name = name_text(x.path@)->0;
                if name.len() > 0 {
                    assert(name.subrange(0, 1) =~= seq![name[0]]);
                    assert("."@ =~= seq!['.']);
                    assert("."@[0] == '.');
                    assert(seq![name[0]][0] == name[0]);
                }
            }
        }
        assert(front.filter(p).push(x).map_values(q) =~= front.filter(p).map_values(q).push(
            x.path@,
        ));
    } else {
        assert(items.filter(p).map_values(q) =~= archives_in(items));
    }
}

/// A preview counts the regular files of the source, whatever their size, and adds up
/// their sizes.
pub proof fn law_previews_count_every_file(found: Seq<Found>)
    ensures
        regular_files(found) == found.filter(|f: Found| !f.is_symlink && f.is_file).len(),
        regular_bytes(found) == found.filter(|f: Found| !f.is_symlink && f.is_file).fold_left(
            0,
            |n: int, f: Found| n + f.len,
        ),
    decreases found.len(),
{
    reveal(Seq::filter);
    let p = |f: Found| !f.is_symlink && f.is_file;
    let g = |n: int, f: Found| n + f.len;
    if found.len() > 0 {
        law_previews_count_every_file(found.drop_last());
        let r = found.drop_last().filter(p);
        if p(found.last()) {
            assert(r.push(found.last()).drop_last() =~= r);
            assert(r.push(found.last()).fold_left(0, g) == r.fold_left(0, g) + found.last().len);
        }
    } else {
        assert(found.filter(p).fold_left(0, g) == 0);
    }
}

/// The files of an archive are its entries that are no directories.
pub proof fn law_archives_count_their_files(s: Seq<Packed>)
    ensures
        file_count(s) == s.filter(|e: Packed| !e.is_dir).len(),
    decreases s.len(),
{
    reveal(Seq::filter);
    if s.len() > 0 {
        law_archives_count_their_files(s.drop_last());
    }
}

/// What a preview counts is what the archive has, where the source holds nothing but
/// directories, regular files and links.
pub proof fn law_previews_foretell_archives(root: Seq<u8>, found: Seq<Found>)
    requires
        all_below(root, found),
        forall|i: int|
            #![trigger found[i]]
            0 <= i < found.len() && !found[i].is_symlink ==> found[i].is_file != found[i].is_dir,
    ensures
        regular_files(found) == file_count(packed(root, found)),
    decreases found.len(),
{
    if found.len() > 0 {
        let front = found.drop_last();
        let f = found.last();
        assert(found[found.len() - 1] == f);
        assert forall|i: int|
            #![trigger front[i]]
            0 <= i < front.len() && !front[i].is_symlink implies lies_inside(front[i].path@, root)
            && !same_path(front[i].path@, root) && front[i].is_file != front[i].is_dir by {
            assert(front[i] == found[i]);
        }
        law_previews_foretell_archives(root, front);
        let rest = packed(root, front);
        if !f.is_symlink {
            let e = packed(root, found).last();
            assert(rest.push(e).drop_last() =~= rest);
        }
    }
}

/// Everything met in the source but links has its entry in the archive, under the path
/// that it has there, whatever its size; and every entry stands for something met.
#[verifier::rlimit(40)]
pub proof fn law_nothing_is_left_out_of_archives(root: Seq<u8>, found: Seq<Found>)
    requires
        root.len() > 0,
        all_below(root, found),
    ensures
        forall|i: int|
            #![trigger found[i]]
            0 <= i < found.len() && !found[i].is_symlink ==> exists|j: int|
                0 <= j < packed(root, found).len() && stands_for(
                    #[trigger] packed(root, found)[j],
                    found[i],
                    root,
                ),
        forall|j: int|
            #![trigger packed(root, found)[j]]
            0 <= j < packed(root, found).len() ==> exists|i: int|
                0 <= i < found.len() && !(#[trigger] found[i]).is_symlink && stands_for(
                    packed(root, found)[j],
                    found[i],
                    root,
                ),
        packed(root, found).len() == found.filter(|f: Found| !f.is_symlink).len(),
    decreases found.len(),
{
    reveal(Seq::filter);
    if found.len() > 0 {
        let front = found.drop_last();
        let f = found.last();
        let n = found.len() - 1;
        assert(found[n] == f);
        assert forall|i: int|
            #![trigger front[i]]
            0 <= i < front.len() && !front[i].is_symlink implies lies_inside(front[i].path@, root)
            && !same_path(front[i].path@, root) by {
            assert(front[i] == found[i]);
        }
        law_nothing_is_left_out_of_archives(root, front);
        let rest = packed(root, front);
        let all = packed(root, found);
        if !f.is_symlink {
            law_stripped_components(f.path@, root);
            law_stripped_joins_back(f.path@, root);
            assert(stands_for(all[rest.len() as int], found[n], root));
        }
        assert forall|i: int|
            #![trigger found[i]]
            0 <= i < found.len() && !found[i].is_symlink implies exists|j: int|
            0 <= j < all.len() && stands_for(#[trigger] all[j], found[i], root) by {
            if i < n {
                assert(front[i] == found[i]);
                let j = choose|j: int|
                    0 <= j < rest.len() && stands_for(#[trigger] rest[j], front[i], root);
                assert(all[j] == rest[j]);
            }
        }
        assert forall|j: int| #![trigger all[j]] 0 <= j < all.len() implies exists|i: int|
            0 <= i < found.len() && !(#[trigger] found[i]).is_symlink && stands_for(
                all[j],
                found[i],
                root,
            ) by {
            if j < rest.len() {
                assert(all[j] == rest[j]);
                let i = choose|i: int|
                    0 <= i < front.len() && !(#[trigger] front[i]).is_symlink && stands_for(
                        rest[j],
                        front[i],
                        root,
                    );
                assert(found[i] == front[i]);
            } else {
                assert(stands_for(all[j], found[n], root));
            }
        }
    }
}

/// A name that is safe already is kept as it is; in any other each character that is not
/// safe becomes `_`, and dots at its ends go.
pub proof fn law_safe_names_stay(raw: Seq<char>)
    ensures
        cleaned(raw).len() == raw.len(),
        forall|i: int|
            #![trigger cleaned(raw)[i]]
            0 <= i < raw.len() ==> cleaned(raw)[i] == if is_safe_char(raw[i]) {
                raw[i]
            } else {
                '_'
            },
        raw.len() > 0 && raw[0] != '.' && raw.last() != '.' && (forall|i: int|
            0 <= i < raw.len() ==> is_safe_char(#[trigger] raw[i])) ==> safe_name(raw) == raw,
        trimmed_char(cleaned(raw), '.').len() > 0 ==> safe_name(raw) == trimmed_char(
            cleaned(raw),
            '.',
        ),
        trimmed_char(cleaned(raw), '.').len() == 0 ==> safe_name(raw) == "project"@,
{
    if raw.len() > 0 && raw[0] != '.' && raw.last() != '.' && (forall|i: int|
        0 <= i < raw.len() ==> is_safe_char(#[trigger] raw[i])) {
        assert(cleaned(raw) =~= raw);
        let dot = text::is_char('.');
        assert(!dot(raw[0]) && !dot(raw.last()));
        assert(trim_start(raw, dot) == raw);
        assert(trim_end(raw, dot) == raw);
    }
}

/// An archive that is made later comes later in the order by which old ones are pruned, up
/// to the year 9999.
pub proof fn law_later_archives_sort_later(
    dir: Seq<u8>,
    earlier: Moment,
    later: Moment,
    s: int,
    t: int,
)
    requires
        dir.len() > 0,
        earlier.is_at(s),
        later.is_at(t),
        s < t,
        0 <= earlier.year <= 9999,
        0 <= later.year <= 9999,
    ensures
        path_order(
            joined(dir, encode_utf8(archive_name(compact_text(earlier)))),
            joined(dir, encode_utf8(archive_name(compact_text(later)))),
        ) == Order::Less,
{
    let a = compact_text(earlier);
    let b = compact_text(later);
    law_stamps_sort_by_time(earlier, later, s, t);
    law_compact_is_rfc3339_without_marks(earlier, s);
    law_compact_is_rfc3339_without_marks(later, t);
    lemma_stamp_name(earlier, s);
    lemma_stamp_name(later, t);
    let x = encode_utf8(archive_name(a));
    let y = encode_utf8(archive_name(b));
    lemma_order_extends(encode_utf8(a), encode_utf8(b), encode_utf8(ARCHIVE_EXT@));
    law_siblings_are_ordered_by_name(dir, x, y);
}

proof fn lemma_order_extends(a: Seq<u8>, b: Seq<u8>, e: Seq<u8>)
    requires
        a.len() == b.len(),
        byte_order(a, b) == Order::Less,
    ensures
        byte_order(a + e, b + e) == Order::Less,
    decreases a.len(),
{
    if a.len() > 0 {
        assert((a + e)[0] == a[0] && (b + e)[0] == b[0]);
        if a[0] == b[0] {
            lemma_order_extends(a.drop_first(), b.drop_first(), e);
            assert((a + e).drop_first() =~= a.drop_first() + e);
            assert((b + e).drop_first() =~= b.drop_first() + e);
        }
    }
}

proof fn lemma_stamp_name(m: Moment, s: int)
    requires
        m.is_at(s),
        0 <= m.year <= 9999,
    ensures
        ({
            let x = encode_utf8(archive_name(compact_text(m)));
            &&& is_part(x)
            &&& is_name(x)
            &&& x == encode_utf8(compact_text(m)) + encode_utf8(ARCHIVE_EXT@)
            &&& encode_utf8(compact_text(m)).len() == 16
        }),
{
    reveal_strlit(".tar.gz.age");
    let a = compact_text(m);
    let n = archive_name(a);
    lemma_stamp_chars(m, s);
    law_compact_is_rfc3339_without_marks(m, s);
    assert(is_ascii_chars(a));
    assert(is_ascii_chars(ARCHIVE_EXT@));
    assert(is_ascii_chars(n)) by {
        assert forall|i: int| 0 <= i < n.len() implies '\0' <= #[trigger] n[i] <= '\u{7f}' by {
            if i < a.len() {
                assert(n[i] == a[i]);
            } else {
                assert(n[i] == ARCHIVE_EXT@[i - a.len()]);
            }
        }
    }
    is_ascii_chars_encode_utf8(a);
    is_ascii_chars_encode_utf8(ARCHIVE_EXT@);
    is_ascii_chars_encode_utf8(n);
    let x = encode_utf8(n);
    assert(x =~= encode_utf8(a) + encode_utf8(ARCHIVE_EXT@)) by {
        assert forall|i: int| 0 <= i < n.len() implies x[i] == (encode_utf8(a) + encode_utf8(
            ARCHIVE_EXT@,
        ))[i] by {
            if i < a.len() {
                assert(n[i] == a[i]);
            } else {
                assert(n[i] == ARCHIVE_EXT@[i - a.len()]);
            }
        }
    }
    assert(x.len() > 2);
    assert(!x.contains(SLASH)) by {
        if x.contains(SLASH) {
            let i = choose|i: int| 0 <= i < x.len() && x[i] == SLASH;
            if i < a.len() {
                assert(n[i] == a[i]);
                assert('0' <= a[i]);
            } else {
                assert(n[i] == ARCHIVE_EXT@[i - a.len()]);
            }
        }
    }
    assert(seq![DOT].len() == 1 && seq![SLASH].len() == 1 && seq![DOT, DOT].len() == 2);
}

/// A backup folder is refused exactly where it and the source overlap, with the word that
/// says how.
pub proof fn law_backup_folders_are_refused_exactly(
    e: BackupDirError,
    src: Seq<u8>,
    dst: Seq<u8>,
)
    requires
        dir_refused(e, src, dst),
    ensures
        components(src).is_prefix_of(components(dst)) || components(dst).is_prefix_of(
            components(src),
        ),
        e is IsSource <==> components(src) == components(dst),
        e is InsideSource <==> components(src).is_prefix_of(components(dst)) && components(src)
            != components(dst),
        e is ContainsSource ==> components(dst).is_prefix_of(components(src)),
{
    let c = components(src);
    assert(c.subrange(0, c.len() as int) =~= c);
}

/// A project's backup folder is named after the project, made safe; one whose name is no
/// text is called a project.
pub proof fn law_backup_folders_are_named_after_the_project(root: Seq<u8>)
    ensures
        file_name_of(root) matches Some(name) ==> valid_utf8(name) ==> project_folder(root)
            == safe_name(decode_utf8(name)),
        (file_name_of(root) matches Some(name) ==> !valid_utf8(name)) ==> project_folder(root)
            == "project"@,
{
    reveal_strlit("project");
    let p = "project"@;
    assert(p.len() == 7 && p[0] == 'p' && p.last() == 't');
    assert forall|i: int| 0 <= i < p.len() implies is_safe_char(#[trigger] p[i]) by {}
    law_safe_names_stay(p);
}

/// Letters and digits of ASCII, dashes, underscores and dots are safe in a folder name,
/// and nothing else is.
pub proof fn law_safe_characters(c: char)
    ensures
        is_safe_char(c) <==> ('a' <= c <= 'z' || 'A' <= c <= 'Z' || '0' <= c <= '9' || c == '-'
            || c == '_' || c == '.'),
{
}

} // verus!
