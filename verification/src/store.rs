//! The store: which folder is the read-only source, which folders mirror it, the
//! file mappings, the backup settings and when things last happened.

use vstd::prelude::*;
use vstd::string::*;
use vstd::utf8::*;

use crate::clock::{self, is_some_moment, rfc3339_text, Moment};
use crate::path::{
    components, file_name_of, is_part, joined, lemma_part_joins, parent_of, path_bytes, same_bytes,
    PathBuf, DOT, SLASH,
};
use crate::resolve::bytes_in;

verus! {

/// Folder that holds the state of a project, relative to its root.
pub const STORE_DIR: &'static str = ".bukagu";

/// The store file inside [`STORE_DIR`].
pub const STORE_FILE: &'static str = "bukagu-store.json";

/// The schema that is written. 2 added the mappings, 3 the backup settings.
pub const STORE_VERSION: u32 = 3;

/// Archives kept per project where the settings do not say.
pub const DEFAULT_RETENTION: usize = 10;

/// A list of paths, copied.
pub fn copy_paths(paths: &Vec<PathBuf>) -> (res: Vec<PathBuf>)
    ensures
        path_bytes(res@) == path_bytes(paths@),
{
    let mut out: Vec<PathBuf> = Vec::new();
    for i in 0..paths.len()
        invariant
            out@.len() == i,
            forall|k: int| #![trigger out@[k]] 0 <= k < i ==> out@[k]@ == paths@[k]@,
    {
        out.push(paths[i].clone());
    }
    assert(path_bytes(out@) =~= path_bytes(paths@));
    out
}

/// An optional path, copied.
pub fn copy_path(p: &Option<PathBuf>) -> (res: Option<PathBuf>)
    ensures
        bytes_in(res) == bytes_in(*p),
{
    match p {
        Some(q) => Some(q.clone()),
        None => None,
    }
}

/// The characters of an optional text.
pub open spec fn chars_in(t: Option<String>) -> Option<Seq<char>> {
    match t {
        Some(s) => Some(s@),
        None => None,
    }
}

/// An optional text, copied.
pub fn copy_text(t: &Option<String>) -> (res: Option<String>)
    ensures
        chars_in(res) == chars_in(*t),
{
    match t {
        Some(s) => Some(s.clone()),
        None => None,
    }
}

/// The sync configuration: one read-only source mirrored into many destinations,
/// matched by relative path.
#[derive(Debug, PartialEq, Eq)]
pub struct Config {
    pub source: PathBuf,
    pub destinations: Vec<PathBuf>,
}

/// What a [`Config`] says, with its paths as plain bytes.
pub struct Folders {
    pub source: Seq<u8>,
    pub destinations: Seq<Seq<u8>>,
}

impl View for Config {
    type V = Folders;

    open spec fn view(&self) -> Folders {
        Folders { source: self.source@, destinations: path_bytes(self.destinations@) }
    }
}

impl Clone for Config {
    fn clone(&self) -> (res: Config)
        ensures
            res@ == self@,
    {
        Config { source: self.source.clone(), destinations: copy_paths(&self.destinations) }
    }
}

/// One file mapping: a source file (relative to the source folder) copied into one or
/// more destination files, each given by its absolute path. A target may be written
/// by at most one mapping.
#[derive(Debug, PartialEq, Eq)]
pub struct Mapping {
    pub source_rel: PathBuf,
    pub targets: Vec<PathBuf>,
}

/// What a [`Mapping`] says, with its paths as plain bytes.
pub struct Link {
    pub source_rel: Seq<u8>,
    pub targets: Seq<Seq<u8>>,
}

impl View for Mapping {
    type V = Link;

    open spec fn view(&self) -> Link {
        Link { source_rel: self.source_rel@, targets: path_bytes(self.targets@) }
    }
}

impl Clone for Mapping {
    fn clone(&self) -> (res: Mapping)
        ensures
            res@ == self@,
    {
        Mapping { source_rel: self.source_rel.clone(), targets: copy_paths(&self.targets) }
    }
}

/// The mappings of a list, with their paths as plain bytes.
pub open spec fn links(s: Seq<Mapping>) -> Seq<Link> {
    s.map_values(|m: Mapping| m@)
}

/// A list of mappings, copied.
pub fn copy_mappings(mappings: &Vec<Mapping>) -> (res: Vec<Mapping>)
    ensures
        links(res@) == links(mappings@),
{
    let mut out: Vec<Mapping> = Vec::new();
    for i in 0..mappings.len()
        invariant
            out@.len() == i,
            forall|k: int| #![trigger out@[k]] 0 <= k < i ==> out@[k]@ == mappings@[k]@,
    {
        out.push(mappings[i].clone());
    }
    assert(links(out@) =~= links(mappings@));
    out
}

/// Where encrypted backups are written and how many are kept.
#[derive(Debug, PartialEq, Eq)]
pub struct BackupSettings {
    /// Backup root folder; by default a folder in the home directory.
    pub root: Option<PathBuf>,
    /// Archives to keep per project; 0 keeps every archive.
    pub retention: Option<usize>,
    /// When the last successful backup finished (RFC 3339, UTC).
    pub last_backup: Option<String>,
}

impl Default for BackupSettings {
    fn default() -> (res: BackupSettings)
        ensures
            res.root is None,
            res.retention is None,
            res.last_backup is None,
    {
        BackupSettings { root: None, retention: None, last_backup: None }
    }
}

impl Clone for BackupSettings {
    fn clone(&self) -> (res: BackupSettings)
        ensures
            bytes_in(res.root) == bytes_in(self.root),
            res.retention == self.retention,
            chars_in(res.last_backup) == chars_in(self.last_backup),
    {
        BackupSettings {
            root: copy_path(&self.root),
            retention: self.retention,
            last_backup: copy_text(&self.last_backup),
        }
    }
}

impl BackupSettings {
    /// The retention count to use, falling back to [`DEFAULT_RETENTION`].
    pub fn effective_retention(&self) -> (res: usize)
        ensures
            res == (match self.retention {
                Some(n) => n,
                None => DEFAULT_RETENTION,
            }),
    {
        match self.retention {
            Some(n) => n,
            None => DEFAULT_RETENTION,
        }
    }
}

/// The full store.
#[derive(Debug)]
pub struct Store {
    pub version: u32,
    pub config: Config,
    pub mappings: Vec<Mapping>,
    pub backup: BackupSettings,
    /// When the store was first written (RFC 3339, UTC).
    pub created_at: String,
    /// When the last successful sync finished, or nothing if never.
    pub last_sync: Option<String>,
}

/// Whether a text is the RFC 3339 form of a moment that the clock can show.
pub open spec fn is_timestamp(t: Seq<char>) -> bool {
    exists|m: Moment| is_some_moment(m) && t == #[trigger] rfc3339_text(m)
}

/// Where a store lies below a base folder.
#[derive(Debug)]
pub struct StorePlace {
    pub dir: PathBuf,
    pub file: PathBuf,
}

/// The store folder below `base`.
pub open spec fn store_dir(base: Seq<u8>) -> Seq<u8> {
    joined(base, encode_utf8(STORE_DIR@))
}

/// The store file below `base`.
pub open spec fn store_file(base: Seq<u8>) -> Seq<u8> {
    joined(store_dir(base), encode_utf8(STORE_FILE@))
}

fn dir_in(base: &PathBuf) -> (res: PathBuf)
    ensures
        res@ == store_dir(base@),
{
    base.join(&PathBuf::of(STORE_DIR))
}

fn path_in(base: &PathBuf) -> (res: PathBuf)
    ensures
        res@ == store_file(base@),
{
    dir_in(base).join(&PathBuf::of(STORE_FILE))
}

impl Store {
    /// A fresh store for a configuration, made at `now`.
    pub fn created(config: Config, now: String) -> (res: Store)
        ensures
            res.version == STORE_VERSION,
            res.config == config,
            res.mappings@.len() == 0,
            res.backup.root is None,
            res.backup.retention is None,
            res.backup.last_backup is None,
            res.created_at == now,
            res.last_sync is None,
    {
        Store {
            version: STORE_VERSION,
            config,
            mappings: Vec::new(),
            backup: BackupSettings::default(),
            created_at: now,
            last_sync: None,
        }
    }

    /// A fresh store for a configuration, made now.
    pub fn new(config: Config) -> (res: Store)
        ensures
            res.version == STORE_VERSION,
            res.config == config,
            res.mappings@.len() == 0,
            res.backup.root is None,
            res.backup.retention is None,
            res.backup.last_backup is None,
            is_timestamp(res.created_at@),
            res.last_sync is None,
    {
        Store::created(config, clock::now_rfc3339())
    }

    /// Record that a sync completed at `now`.
    pub fn synced_at(&mut self, now: String)
        ensures
            *final(self) == (Store { last_sync: Some(now), ..*old(self) }),
    {
        self.last_sync = Some(now);
    }

    /// Record that a sync just completed.
    pub fn mark_synced(&mut self)
        ensures
            final(self).last_sync matches Some(t) && is_timestamp(t@),
            *final(self) == (Store { last_sync: final(self).last_sync, ..*old(self) }),
    {
        self.synced_at(clock::now_rfc3339());
    }

    /// Record that a backup completed at `now`.
    pub fn backed_up_at(&mut self, now: String)
        ensures
            *final(self) == (Store {
                backup: BackupSettings { last_backup: Some(now), ..old(self).backup },
                ..*old(self)
            }),
    {
        self.backup.last_backup = Some(now);
    }

    /// Record that a backup just completed.
    pub fn mark_backed_up(&mut self)
        ensures
            final(self).backup.last_backup matches Some(t) && is_timestamp(t@),
            *final(self) == (Store {
                backup: BackupSettings {
                    last_backup: final(self).backup.last_backup,
                    ..old(self).backup
                },
                ..*old(self)
            }),
    {
        self.backed_up_at(clock::now_rfc3339());
    }

    /// The file from which the store of the working directory is loaded.
    pub fn load() -> (res: PathBuf)
        ensures
            res@ == store_file(encode_utf8("."@)),
    {
        Store::load_from(&PathBuf::of("."))
    }

    /// The file from which the store below `base` is loaded.
    pub fn load_from(base: &PathBuf) -> (res: PathBuf)
        ensures
            res@ == store_file(base@),
    {
        path_in(base)
    }

    /// Make the store ready to be written in the working directory, and say where.
    pub fn save(&mut self) -> (res: StorePlace)
        ensures
            res.dir@ == store_dir(encode_utf8("."@)),
            res.file@ == store_file(encode_utf8("."@)),
            *final(self) == (Store { version: STORE_VERSION, ..*old(self) }),
    {
        self.save_to(&PathBuf::of("."))
    }

    /// Make the store ready to be written below `base`, and say where. What is written
    /// is the current schema, so the store takes on its version.
    pub fn save_to(&mut self, base: &PathBuf) -> (res: StorePlace)
        ensures
            res.dir@ == store_dir(base@),
            res.file@ == store_file(base@),
            *final(self) == (Store { version: STORE_VERSION, ..*old(self) }),
    {
        self.version = STORE_VERSION;
        StorePlace { dir: dir_in(base), file: path_in(base) }
    }
}

/// The project root that a launch directory implies.
pub open spec fn root_of(cwd: Seq<u8>) -> Seq<u8> {
    match (file_name_of(cwd), parent_of(cwd)) {
        (Some(name), Some(parent)) => if name == encode_utf8(STORE_DIR@) {
            parent
        } else {
            cwd
        },
        _ => cwd,
    }
}

/// The project root that a launch directory implies: its parent where it is the store
/// folder itself, else the directory as it is.
pub fn project_root_of(cwd: &PathBuf) -> (res: PathBuf)
    ensures
        res@ == root_of(cwd@),
{
    if let Some(name) = cwd.file_name() {
        let dir = PathBuf::of(STORE_DIR);
        if same_bytes(&name, &dir.bytes) {
            if let Some(parent) = cwd.parent() {
                return parent;
            }
        }
    }
    cwd.clone()
}

// --- Laws ------------------------------------------------------------------

/// A run from within the store folder belongs to the project around it; any other folder
/// is its own project root.
pub proof fn law_project_roots(cwd: Seq<u8>)
    ensures
        file_name_of(cwd) == Some(encode_utf8(".bukagu"@)) && parent_of(cwd) is Some ==> root_of(
            cwd,
        ) == parent_of(cwd)->0,
        file_name_of(cwd) != Some(encode_utf8(".bukagu"@)) ==> root_of(cwd) == cwd,
{
}

/// The store lies in the file `bukagu-store.json` of the folder `.bukagu` of the project.
pub proof fn law_stores_lie_in_the_project(base: Seq<u8>)
    requires
        base.len() > 0,
    ensures
        components(store_dir(base)) == components(base).push(encode_utf8(".bukagu"@)),
        components(store_file(base)) == components(base).push(encode_utf8(".bukagu"@)).push(
            encode_utf8("bukagu-store.json"@),
        ),
{
    lemma_name_is_part(".bukagu"@);
    lemma_name_is_part("bukagu-store.json"@);
    lemma_part_joins(base, encode_utf8(".bukagu"@));
    assert(store_dir(base).len() > 0);
    lemma_part_joins(store_dir(base), encode_utf8("bukagu-store.json"@));
}

proof fn lemma_name_is_part(name: Seq<char>)
    requires
        name == ".bukagu"@ || name == "bukagu-store.json"@,
    ensures
        is_part(encode_utf8(name)),
{
    reveal_strlit(".bukagu");
    reveal_strlit("bukagu-store.json");
    assert(is_ascii_chars(name));
    is_ascii_chars_encode_utf8(name);
    let b = encode_utf8(name);
    assert(b.len() > 1);
    assert(!b.contains(SLASH)) by {
        if b.contains(SLASH) {
            let i = choose|i: int| 0 <= i < b.len() && b[i] == SLASH;
            assert(name[i] == '/');
        }
    }
    assert(seq![DOT].len() == 1);
}

/// The ten newest backups are kept where nothing else is set, and a store is written in
/// the third schema.
pub proof fn law_defaults()
    ensures
        DEFAULT_RETENTION == 10,
        STORE_VERSION == 3,
{
}

} // verus!
