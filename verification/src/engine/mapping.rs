//! Explicit file mappings: validate, plan and apply, per source file and target.
//!
//! A mapping writes one source file into one or more destination files, each with
//! a banner on top. What the file system has to say (where paths really lie, what
//! files hold) comes in as plain values, and what to write goes out as such.

use vstd::prelude::*;
use vstd::string::*;
use vstd::utf8::*;

use crate::engine::banner::{self, bannered, style_of};
use crate::path::{
    extension_text_of, is_within, joined, parent_of, path_bytes, same_bytes, same_path, PathBuf,
};
use crate::resolve::{bytes_in, places, Place, PlaceModel};
use crate::text::{self, ascii_lower, lossy_text};

verus! {

/// Whether a target got a banner, or why it did not.
#[derive(Debug, Clone, Copy, PartialEq, Eq, Structural)]
pub enum BannerMode {
    /// A banner was (or would be) put on top.
    Applied,
    /// The extension has no known comment syntax: copied verbatim.
    SkippedUnknownExt,
    /// The source is not UTF-8 text: copied verbatim.
    SkippedBinary,
}

/// The tag that the summary shows for a banner mode.
pub open spec fn mode_note(mode: BannerMode) -> Option<Seq<char>> {
    match mode {
        BannerMode::Applied => None,
        BannerMode::SkippedUnknownExt => Some("no banner (unknown type)"@),
        BannerMode::SkippedBinary => Some("no banner (binary)"@),
    }
}

impl BannerMode {
    /// A short tag for the summary screen.
    pub fn note(self) -> (res: Option<&'static str>)
        ensures
            match res {
                Some(t) => mode_note(self) == Some(t@),
                None => mode_note(self) is None,
            },
    {
        match self {
            BannerMode::Applied => None,
            BannerMode::SkippedUnknownExt => Some("no banner (unknown type)"),
            BannerMode::SkippedBinary => Some("no banner (binary)"),
        }
    }
}

/// What syncing a single target would do.
#[derive(Debug, Clone, Copy, PartialEq, Eq, Structural)]
pub enum TargetState {
    /// The target does not exist yet: it will be written.
    Create,
    /// The target differs from what would be written: it will be replaced.
    Update,
    /// The target already matches: nothing to do.
    UpToDate,
    /// The source file is gone: this target is skipped (and flagged).
    SourceMissing,
}

/// The word that the summary shows for a state.
pub open spec fn state_label(state: TargetState) -> Seq<char> {
    match state {
        TargetState::Create => "create"@,
        TargetState::Update => "update"@,
        TargetState::UpToDate => "ok"@,
        TargetState::SourceMissing => "missing"@,
    }
}

impl TargetState {
    /// A short, stable label for the summary list.
    pub fn label(self) -> (res: &'static str)
        ensures
            res@ == state_label(self),
    {
        match self {
            TargetState::Create => "create",
            TargetState::Update => "update",
            TargetState::UpToDate => "ok",
            TargetState::SourceMissing => "missing",
        }
    }
}

/// One planned write: a source file mapped onto a single destination target.
#[derive(Debug)]
pub struct TargetPlan {
    pub source_rel: PathBuf,
    pub source_abs: PathBuf,
    pub target: PathBuf,
    pub state: TargetState,
    pub banner: BannerMode,
    /// Bytes that would be written (0 for up-to-date / missing-source rows).
    pub bytes: u64,
}

/// What a [`TargetPlan`] says, with its paths as plain bytes.
pub struct Target {
    pub source_rel: Seq<u8>,
    pub source_abs: Seq<u8>,
    pub target: Seq<u8>,
    pub state: TargetState,
    pub banner: BannerMode,
    pub bytes: nat,
}

impl View for TargetPlan {
    type V = Target;

    open spec fn view(&self) -> Target {
        Target {
            source_rel: self.source_rel@,
            source_abs: self.source_abs@,
            target: self.target@,
            state: self.state,
            banner: self.banner,
            bytes: self.bytes as nat,
        }
    }
}

impl Clone for TargetPlan {
    fn clone(&self) -> (res: TargetPlan)
        ensures
            res@ == self@,
    {
        TargetPlan {
            source_rel: self.source_rel.clone(),
            source_abs: self.source_abs.clone(),
            target: self.target.clone(),
            state: self.state,
            banner: self.banner,
            bytes: self.bytes,
        }
    }
}

/// Whether a target in this state gets written.
pub open spec fn is_written(state: TargetState) -> bool {
    state == TargetState::Create || state == TargetState::Update
}

impl TargetPlan {
    /// Whether this target actually gets written during apply.
    pub fn will_write(&self) -> (res: bool)
        ensures
            res == is_written(self.state),
    {
        self.state == TargetState::Create || self.state == TargetState::Update
    }
}

/// Rolled-up counts for a [`MappingPlan`], shown in the summary.
#[derive(Debug, Clone, Copy, PartialEq, Eq, Structural)]
pub struct MappingStats {
    pub created: usize,
    pub updated: usize,
    pub up_to_date: usize,
    pub source_missing: usize,
    /// Targets written without a banner (unknown type or binary).
    pub banner_skipped: usize,
    /// Total bytes that would be written (created and updated).
    pub bytes: u64,
}

impl Default for MappingStats {
    fn default() -> (res: MappingStats)
        ensures
            res == (MappingStats {
                created: 0,
                updated: 0,
                up_to_date: 0,
                source_missing: 0,
                banner_skipped: 0,
                bytes: 0,
            }),
    {
        MappingStats {
            created: 0,
            updated: 0,
            up_to_date: 0,
            source_missing: 0,
            banner_skipped: 0,
            bytes: 0,
        }
    }
}

/// Every target's plan plus a rolled-up summary.
#[derive(Debug)]
pub struct MappingPlan {
    pub targets: Vec<TargetPlan>,
    pub stats: MappingStats,
}

/// The targets of a list, with their paths as plain bytes.
pub open spec fn targets_view(s: Seq<TargetPlan>) -> Seq<Target> {
    s.map_values(|t: TargetPlan| t@)
}

impl Default for MappingPlan {
    fn default() -> (res: MappingPlan)
        ensures
            res.targets@.len() == 0,
            tallies(res.stats, targets_view(res.targets@)),
    {
        MappingPlan { targets: Vec::new(), stats: MappingStats::default() }
    }
}

impl MappingPlan {
    /// Targets that would actually be written (created and updated).
    pub fn changes(&self) -> (res: usize)
        requires
            self.stats.created + self.stats.updated <= usize::MAX,
        ensures
            res == self.stats.created + self.stats.updated,
    {
        self.stats.created + self.stats.updated
    }

    /// True when nothing would be written.
    pub fn is_noop(&self) -> (res: bool)
        ensures
            res == (self.stats.created + self.stats.updated == 0),
    {
        self.stats.created == 0 && self.stats.updated == 0
    }
}

// --- Issues ----------------------------------------------------------------

/// A problem with the current set of mappings, surfaced before a sync.
#[derive(Debug, PartialEq, Eq)]
pub enum Issue {
    /// A destination target is written by more than one mapping.
    DuplicateTarget(PathBuf),
    /// A target lies inside the source.
    TargetInSource(PathBuf),
    /// A target lies outside every registered destination folder.
    TargetOutsideDestinations(PathBuf),
    /// A mapping's source file no longer exists.
    SourceMissing(PathBuf),
}

/// What an [`Issue`] says, with its path as plain bytes.
pub enum Flaw {
    DuplicateTarget(Seq<u8>),
    TargetInSource(Seq<u8>),
    TargetOutsideDestinations(Seq<u8>),
    SourceMissing(Seq<u8>),
}

impl View for Issue {
    type V = Flaw;

    open spec fn view(&self) -> Flaw {
        match self {
            Issue::DuplicateTarget(p) => Flaw::DuplicateTarget(p@),
            Issue::TargetInSource(p) => Flaw::TargetInSource(p@),
            Issue::TargetOutsideDestinations(p) => Flaw::TargetOutsideDestinations(p@),
            Issue::SourceMissing(p) => Flaw::SourceMissing(p@),
        }
    }
}

/// The issues of a list, with their paths as plain bytes.
pub open spec fn flaws(s: Seq<Issue>) -> Seq<Flaw> {
    s.map_values(|i: Issue| i@)
}

/// Whether a flaw stops a sync entirely.
pub open spec fn is_blocking_flaw(f: Flaw) -> bool {
    !(f is SourceMissing)
}

/// The sentence in which a flaw is reported.
pub open spec fn flaw_text(f: Flaw) -> Seq<char> {
    match f {
        Flaw::DuplicateTarget(p) => lossy_text(p) + " is mapped from more than one source"@,
        Flaw::TargetInSource(p) => lossy_text(p)
            + " is inside the source (bukagu never writes there)"@,
        Flaw::TargetOutsideDestinations(p) => lossy_text(p)
            + " is outside every destination folder"@,
        Flaw::SourceMissing(p) => "source file "@ + lossy_text(p) + " is missing"@,
    }
}

impl Clone for Issue {
    fn clone(&self) -> (res: Issue)
        ensures
            res@ == self@,
    {
        match self {
            Issue::DuplicateTarget(p) => Issue::DuplicateTarget(p.clone()),
            Issue::TargetInSource(p) => Issue::TargetInSource(p.clone()),
            Issue::TargetOutsideDestinations(p) => Issue::TargetOutsideDestinations(p.clone()),
            Issue::SourceMissing(p) => Issue::SourceMissing(p.clone()),
        }
    }
}

impl Issue {
    /// Blocking issues stop a sync entirely; a missing source only skips its own
    /// targets.
    pub fn is_blocking(&self) -> (res: bool)
        ensures
            res == is_blocking_flaw(self@),
    {
        match self {
            Issue::SourceMissing(_) => false,
            _ => true,
        }
    }

    /// A user-facing one-line description.
    pub fn message(&self) -> (res: String)
        ensures
            res@ == flaw_text(self@),
    {
        match self {
            Issue::DuplicateTarget(p) => text::concat(
                p.display().as_str(),
                " is mapped from more than one source",
            ),
            Issue::TargetInSource(p) => text::concat(
                p.display().as_str(),
                " is inside the source (bukagu never writes there)",
            ),
            Issue::TargetOutsideDestinations(p) => text::concat(
                p.display().as_str(),
                " is outside every destination folder",
            ),
            Issue::SourceMissing(p) => text::concat3(
                "source file ",
                p.display().as_str(),
                " is missing",
            ),
        }
    }
}

// --- Validation ------------------------------------------------------------

/// A mapping with what the file system says of its source and where its targets
/// really lie.
#[derive(Debug)]
pub struct LocatedMapping {
    pub source_rel: PathBuf,
    pub source_is_file: bool,
    pub targets: Vec<Place>,
}

/// What a [`LocatedMapping`] says, as plain values.
pub struct Located {
    pub source_rel: Seq<u8>,
    pub source_is_file: bool,
    pub targets: Seq<PlaceModel>,
}

impl View for LocatedMapping {
    type V = Located;

    open spec fn view(&self) -> Located {
        Located {
            source_rel: self.source_rel@,
            source_is_file: self.source_is_file,
            targets: places(self.targets@),
        }
    }
}

/// What the mappings of a list say.
pub open spec fn located_view(s: Seq<LocatedMapping>) -> Seq<Located> {
    s.map_values(|m: LocatedMapping| m@)
}

/// The targets of a mapping, in order.
pub open spec fn target_paths(targets: Seq<PlaceModel>) -> Seq<Seq<u8>> {
    targets.map_values(|t: PlaceModel| t.path)
}

/// The targets of all mappings, in order.
pub open spec fn all_targets(mappings: Seq<Located>) -> Seq<Seq<u8>>
    decreases mappings.len(),
{
    if mappings.len() == 0 {
        Seq::empty()
    } else {
        all_targets(mappings.drop_last()) + target_paths(mappings.last().targets)
    }
}

/// How often a path occurs in a list.
pub open spec fn occurrences(paths: Seq<Seq<u8>>, p: Seq<u8>) -> nat
    decreases paths.len(),
{
    if paths.len() == 0 {
        0
    } else {
        occurrences(paths.drop_last(), p) + (if same_path(paths.last(), p) {
            1nat
        } else {
            0
        })
    }
}

/// One flaw for each path that a list holds more than once, where it comes up for
/// the second time.
pub open spec fn duplicates(paths: Seq<Seq<u8>>) -> Seq<Flaw>
    decreases paths.len(),
{
    if paths.len() == 0 {
        Seq::empty()
    } else {
        let rest = duplicates(paths.drop_last());
        if occurrences(paths.drop_last(), paths.last()) == 1 {
            rest.push(Flaw::DuplicateTarget(paths.last()))
        } else {
            rest
        }
    }
}

/// Whether a place lies in one of the roots.
pub open spec fn in_some_root(resolved: Seq<u8>, roots: Seq<Place>) -> bool {
    exists|i: int| 0 <= i < roots.len() && is_within(resolved, (#[trigger] roots[i]).resolved@)
}

/// The flaws in where targets lie.
pub open spec fn misplaced(targets: Seq<PlaceModel>, source: Place, roots: Seq<Place>) -> Seq<Flaw>
    decreases targets.len(),
{
    if targets.len() == 0 {
        Seq::empty()
    } else {
        let rest = misplaced(targets.drop_last(), source, roots);
        let t = targets.last();
        if is_within(t.resolved, source.resolved@) {
            rest.push(Flaw::TargetInSource(t.path))
        } else if !in_some_root(t.resolved, roots) {
            rest.push(Flaw::TargetOutsideDestinations(t.path))
        } else {
            rest
        }
    }
}

/// The flaws of each mapping by itself.
pub open spec fn own_flaws(mappings: Seq<Located>, source: Place, roots: Seq<Place>) -> Seq<
    Flaw,
>
    decreases mappings.len(),
{
    if mappings.len() == 0 {
        Seq::empty()
    } else {
        let m = mappings.last();
        own_flaws(mappings.drop_last(), source, roots) + (if m.source_is_file {
            Seq::empty()
        } else {
            seq![Flaw::SourceMissing(m.source_rel)]
        }) + misplaced(m.targets, source, roots)
    }
}

/// Every flaw of a set of mappings.
pub open spec fn validated(mappings: Seq<Located>, source: Place, roots: Seq<Place>) -> Seq<
    Flaw,
> {
    duplicates(all_targets(mappings)) + own_flaws(mappings, source, roots)
}

fn count_same(paths: &Vec<PathBuf>, p: &PathBuf) -> (res: usize)
    ensures
        res == occurrences(path_bytes(paths@), p@),
{
    let ghost all = path_bytes(paths@);
    let mut n: usize = 0;
    for i in 0..paths.len()
        invariant
            all == path_bytes(paths@),
            n == occurrences(all.take(i as int), p@),
            n <= i,
    {
        assert(all.take(i + 1).drop_last() =~= all.take(i as int));
        assert(all.take(i + 1).last() == paths@[i as int]@);
        if paths[i].same(p) {
            n += 1;
        }
    }
    assert(all.take(paths@.len() as int) =~= all);
    n
}

fn lies_in_some_root(place: &Place, roots: &Vec<Place>) -> (res: bool)
    ensures
        res == in_some_root(place.resolved@, roots@),
{
    for i in 0..roots.len()
        invariant
            forall|j: int|
                0 <= j < i ==> !is_within(place.resolved@, (#[trigger] roots@[j]).resolved@),
    {
        if place.resolved.starts_with(&roots[i].resolved) {
            return true;
        }
    }
    false
}

proof fn lemma_flaws_push(s: Seq<Issue>, i: Issue)
    ensures
        flaws(s.push(i)) == flaws(s).push(i@),
{
    assert(flaws(s.push(i)) =~= flaws(s).push(i@));
}

fn find_duplicates(mappings: &Vec<LocatedMapping>) -> (res: Vec<Issue>)
    ensures
        flaws(res@) == duplicates(all_targets(located_view(mappings@))),
{
    let ghost all = located_view(mappings@);
    let mut issues: Vec<Issue> = Vec::new();
    let mut seen: Vec<PathBuf> = Vec::new();
    assert(flaws(issues@) =~= Seq::empty());
    assert(path_bytes(seen@) =~= Seq::empty());
    for i in 0..mappings.len()
        invariant
            all == located_view(mappings@),
            path_bytes(seen@) == all_targets(all.take(i as int)),
            flaws(issues@) == duplicates(path_bytes(seen@)),
    {
        let targets = &mappings[i].targets;
        let ghost before = path_bytes(seen@);
        let ghost paths = target_paths(places(targets@));
        assert(before + paths.take(0) =~= before);
        for j in 0..targets.len()
            invariant
                paths == target_paths(places(targets@)),
                path_bytes(seen@) == before + paths.take(j as int),
                flaws(issues@) == duplicates(path_bytes(seen@)),
        {
            let target = &targets[j].path;
            let ghost so_far = path_bytes(seen@);
            let copy = target.clone();
            proof {
                assert(path_bytes(seen@.push(copy)) =~= so_far.push(target@));
                assert(so_far.push(target@).drop_last() =~= so_far);
                assert(so_far.push(target@).last() == target@);
                assert(before + paths.take(j + 1) =~= so_far.push(paths[j as int]));
            }
            if count_same(&seen, target) == 1 {
                let issue = Issue::DuplicateTarget(target.clone());
                proof {
                    lemma_flaws_push(issues@, issue);
                }
                issues.push(issue);
            }
            seen.push(copy);
        }
        assert(all.take(i + 1).drop_last() =~= all.take(i as int));
        assert(all.take(i + 1).last() == mappings@[i as int]@);
        assert(paths.take(targets@.len() as int) =~= paths);
    }
    assert(all.take(mappings@.len() as int) =~= all);
    issues
}

fn push_misplaced(issues: &mut Vec<Issue>, targets: &Vec<Place>, source: &Place, roots: &Vec<Place>)
    ensures
        flaws(final(issues)@) == flaws(old(issues)@) + misplaced(
            places(targets@),
            *source,
            roots@,
        ),
{
    let ghost before = flaws(issues@);
    let ghost all = places(targets@);
    assert(before + misplaced(all.take(0), *source, roots@) =~= before);
    for j in 0..targets.len()
        invariant
            all == places(targets@),
            flaws(issues@) == before + misplaced(all.take(j as int), *source, roots@),
    {
        let t = &targets[j];
        let ghost rest = misplaced(all.take(j as int), *source, roots@);
        assert(all.take(j + 1).drop_last() =~= all.take(j as int));
        assert(all.take(j + 1).last() == t@);
        if t.resolved.starts_with(&source.resolved) {
            let issue = Issue::TargetInSource(t.path.clone());
            proof {
                lemma_flaws_push(issues@, issue);
                assert((before + rest).push(issue@) =~= before + rest.push(issue@));
            }
            issues.push(issue);
        } else if !lies_in_some_root(t, roots) {
            let issue = Issue::TargetOutsideDestinations(t.path.clone());
            proof {
                lemma_flaws_push(issues@, issue);
                assert((before + rest).push(issue@) =~= before + rest.push(issue@));
            }
            issues.push(issue);
        }
    }
    assert(all.take(targets@.len() as int) =~= all);
}

/// Validate the mappings against the source and destination roots. Gives every
/// issue found: the targets that more than one mapping writes, each once, then for
/// each mapping a missing source and the targets that lie in the source or outside
/// every destination.
pub fn validate(source: &Place, dest_roots: &Vec<Place>, mappings: &Vec<LocatedMapping>) -> (res:
    Vec<Issue>)
    ensures
        flaws(res@) == validated(located_view(mappings@), *source, dest_roots@),
{
    let mut issues = find_duplicates(mappings);
    let ghost dups = flaws(issues@);
    let ghost all = located_view(mappings@);
    assert(dups + own_flaws(all.take(0), *source, dest_roots@) =~= dups);
    for i in 0..mappings.len()
        invariant
            all == located_view(mappings@),
            flaws(issues@) == dups + own_flaws(all.take(i as int), *source, dest_roots@),
    {
        let m = &mappings[i];
        let ghost rest = own_flaws(all.take(i as int), *source, dest_roots@);
        let ghost bad = misplaced(m@.targets, *source, dest_roots@);
        assert(all.take(i + 1).drop_last() =~= all.take(i as int));
        assert(all.take(i + 1).last() == m@);
        if !m.source_is_file {
            let issue = Issue::SourceMissing(m.source_rel.clone());
            proof {
                lemma_flaws_push(issues@, issue);
                assert((dups + rest).push(issue@) + bad =~= dups + (rest + seq![issue@] + bad));
            }
            issues.push(issue);
        } else {
            assert(dups + rest + bad =~= dups + (rest + Seq::empty() + bad));
        }
        push_misplaced(&mut issues, &m.targets, source, dest_roots);
    }
    assert(all.take(mappings@.len() as int) =~= all);
    issues
}

// --- Guard -----------------------------------------------------------------

/// Why a target is not written.
#[derive(Debug, PartialEq, Eq)]
pub enum TargetError {
    /// The target lies inside the source.
    InSource { target: PathBuf, source: PathBuf },
    /// The target lies outside every destination folder.
    OutsideDestinations(PathBuf),
}

/// The sentence in which a [`TargetError`] is reported.
pub open spec fn target_error_text(e: TargetError) -> Seq<char> {
    match e {
        TargetError::InSource { target, source } => "refusing to write into the source: "@
            + lossy_text(target@) + " is inside "@ + lossy_text(source@),
        TargetError::OutsideDestinations(target) => "refusing to write "@ + lossy_text(target@)
            + ": it is outside every destination folder"@,
    }
}

impl TargetError {
    /// A one-line description.
    pub fn message(&self) -> (res: String)
        ensures
            res@ == target_error_text(*self),
    {
        match self {
            TargetError::InSource { target, source } => {
                let mut s = "refusing to write into the source: ".to_owned();
                s.append(target.display().as_str());
                s.append(" is inside ");
                s.append(source.display().as_str());
                s
            },
            TargetError::OutsideDestinations(target) => text::concat3(
                "refusing to write ",
                target.display().as_str(),
                ": it is outside every destination folder",
            ),
        }
    }
}

/// Whether a target may be written: outside the source, inside a destination.
pub open spec fn is_writable(source: Place, roots: Seq<Place>, target: PlaceModel) -> bool {
    !is_within(target.resolved, source.resolved@) && in_some_root(target.resolved, roots)
}

/// What refuses a target that may not be written.
pub open spec fn refuses(e: TargetError, source: Place, roots: Seq<Place>, target: Place) -> bool {
    if is_within(target.resolved@, source.resolved@) {
        e matches TargetError::InSource { target: t, source: s } && t@ == target.path@ && s@
            == source.path@
    } else {
        &&& !in_some_root(target.resolved@, roots)
        &&& e matches TargetError::OutsideDestinations(t) && t@ == target.path@
    }
}

/// Refuse to write a target that really lies inside the source, or outside every
/// destination root.
pub fn guard_target(source: &Place, dest_roots: &Vec<Place>, target: &Place) -> (res: Result<
    (),
    TargetError,
>)
    ensures
        match res {
            Ok(()) => is_writable(*source, dest_roots@, target@),
            Err(e) => refuses(e, *source, dest_roots@, *target),
        },
{
    if target.resolved.starts_with(&source.resolved) {
        return Err(
            TargetError::InSource { target: target.path.clone(), source: source.path.clone() },
        );
    }
    if !lies_in_some_root(target, dest_roots) {
        return Err(TargetError::OutsideDestinations(target.path.clone()));
    }
    Ok(())
}

// --- Rendering -------------------------------------------------------------

/// The banner mode that a target's extension implies.
pub open spec fn mode_for(target: Seq<u8>) -> BannerMode {
    if style_of(ascii_lower(extension_text_of(target))) is Some {
        BannerMode::Applied
    } else {
        BannerMode::SkippedUnknownExt
    }
}

/// What a target should hold, given the contents of its source, and its banner mode.
pub open spec fn rendered(source_abs: Seq<u8>, target: Seq<u8>, bytes: Seq<u8>) -> (
    Seq<u8>,
    BannerMode,
) {
    match style_of(ascii_lower(extension_text_of(target))) {
        None => (bytes, BannerMode::SkippedUnknownExt),
        Some(style) => if valid_utf8(bytes) {
            (encode_utf8(bannered(style, source_abs, decode_utf8(bytes))), BannerMode::Applied)
        } else {
            (bytes, BannerMode::SkippedBinary)
        },
    }
}

/// Bytes, copied.
pub fn copy_bytes(b: &Vec<u8>) -> (res: Vec<u8>)
    ensures
        res@ == b@,
{
    let mut out: Vec<u8> = Vec::new();
    for i in 0..b.len()
        invariant
            out@ == b@.take(i as int),
    {
        out.push(b[i]);
        assert(b@.take(i + 1) =~= b@.take(i as int).push(b@[i as int]));
    }
    assert(b@.take(b@.len() as int) =~= b@);
    out
}

/// The exact bytes to write to `target`: the contents of its source plus a banner.
/// A file whose extension has no comment syntax, or whose source is not UTF-8 text,
/// comes out verbatim.
pub fn render_target(source_abs: &PathBuf, target: &PathBuf, bytes: &Vec<u8>) -> (res: (
    Vec<u8>,
    BannerMode,
))
    ensures
        (res.0@, res.1) == rendered(source_abs@, target@, bytes@),
{
    let ext = target.extension_text();
    let style = match banner::comment_style(ext.as_str()) {
        Some(style) => style,
        None => {
            return (copy_bytes(bytes), BannerMode::SkippedUnknownExt);
        },
    };
    match text::utf8_text(bytes.as_slice()) {
        Some(t) => {
            proof {
                encode_utf8_decode_utf8(t@);
            }
            let full = banner::with_banner(style, source_abs, t);
            (full.as_str().as_bytes_vec(), BannerMode::Applied)
        },
        None => (copy_bytes(bytes), BannerMode::SkippedBinary),
    }
}

fn banner_mode_for_ext(target: &PathBuf) -> (res: BannerMode)
    ensures
        res == mode_for(target@),
{
    let ext = target.extension_text();
    if banner::comment_style(ext.as_str()).is_some() {
        BannerMode::Applied
    } else {
        BannerMode::SkippedUnknownExt
    }
}

// --- Planning --------------------------------------------------------------

/// A target with what it holds now, where it can be read.
#[derive(Debug)]
pub struct LoadedTarget {
    pub target: PathBuf,
    pub existing: Option<Vec<u8>>,
}

/// A mapping with the contents of its source, where that is a file, and of its
/// targets.
#[derive(Debug)]
pub struct LoadedMapping {
    pub source_rel: PathBuf,
    pub contents: Option<Vec<u8>>,
    pub targets: Vec<LoadedTarget>,
}

/// What a [`LoadedTarget`] says, as plain values.
pub struct Holding {
    pub target: Seq<u8>,
    pub existing: Option<Seq<u8>>,
}

/// What a [`LoadedMapping`] says, as plain values.
pub struct Loaded {
    pub source_rel: Seq<u8>,
    pub contents: Option<Seq<u8>>,
    pub targets: Seq<Holding>,
}

/// The bytes of an optional file.
pub open spec fn bytes_held(c: Option<Vec<u8>>) -> Option<Seq<u8>> {
    match c {
        Some(b) => Some(b@),
        None => None,
    }
}

impl View for LoadedTarget {
    type V = Holding;

    open spec fn view(&self) -> Holding {
        Holding { target: self.target@, existing: bytes_held(self.existing) }
    }
}

/// What the targets of a list say.
pub open spec fn holdings(s: Seq<LoadedTarget>) -> Seq<Holding> {
    s.map_values(|t: LoadedTarget| t@)
}

impl View for LoadedMapping {
    type V = Loaded;

    open spec fn view(&self) -> Loaded {
        Loaded {
            source_rel: self.source_rel@,
            contents: bytes_held(self.contents),
            targets: holdings(self.targets@),
        }
    }
}

/// What the mappings of a list say.
pub open spec fn loaded_view(s: Seq<LoadedMapping>) -> Seq<Loaded> {
    s.map_values(|m: LoadedMapping| m@)
}

/// What syncing does to a target that now holds `existing` and should hold `wanted`.
pub open spec fn state_for(existing: Option<Seq<u8>>, wanted: Seq<u8>) -> TargetState {
    match existing {
        Some(e) => if e == wanted {
            TargetState::UpToDate
        } else {
            TargetState::Update
        },
        None => TargetState::Create,
    }
}

/// The plan for one target.
pub open spec fn planned_target(
    source_rel: Seq<u8>,
    source_abs: Seq<u8>,
    contents: Option<Seq<u8>>,
    t: Holding,
) -> Target {
    match contents {
        None => Target {
            source_rel,
            source_abs,
            target: t.target,
            state: TargetState::SourceMissing,
            banner: mode_for(t.target),
            bytes: 0,
        },
        Some(c) => {
            let (wanted, mode) = rendered(source_abs, t.target, c);
            Target {
                source_rel,
                source_abs,
                target: t.target,
                state: state_for(t.existing, wanted),
                banner: mode,
                bytes: if is_written(state_for(t.existing, wanted)) {
                    wanted.len()
                } else {
                    0
                },
            }
        },
    }
}

/// The plans for the targets of one mapping.
pub open spec fn planned_mapping(source: Seq<u8>, m: Loaded) -> Seq<Target> {
    m.targets.map_values(
        |t: Holding| planned_target(m.source_rel, joined(source, m.source_rel), m.contents, t),
    )
}

/// The plans for the targets of all mappings, in order.
pub open spec fn planned_targets(source: Seq<u8>, mappings: Seq<Loaded>) -> Seq<Target>
    decreases mappings.len(),
{
    if mappings.len() == 0 {
        Seq::empty()
    } else {
        planned_targets(source, mappings.drop_last()) + planned_mapping(source, mappings.last())
    }
}

/// How many targets of a list satisfy `p`.
pub open spec fn count(s: Seq<Target>, p: spec_fn(Target) -> bool) -> nat
    decreases s.len(),
{
    if s.len() == 0 {
        0
    } else {
        count(s.drop_last(), p) + (if p(s.last()) {
            1nat
        } else {
            0
        })
    }
}

/// The bytes that writing a list of targets takes.
pub open spec fn written_bytes(s: Seq<Target>) -> nat
    decreases s.len(),
{
    if s.len() == 0 {
        0
    } else {
        written_bytes(s.drop_last()) + (if is_written(s.last().state) {
            s.last().bytes
        } else {
            0
        })
    }
}

/// Whether `stats` counts the targets of `s` by state and adds up what is written.
pub open spec fn tallies(stats: MappingStats, s: Seq<Target>) -> bool {
    &&& stats.created == count(s, |t: Target| t.state == TargetState::Create)
    &&& stats.updated == count(s, |t: Target| t.state == TargetState::Update)
    &&& stats.up_to_date == count(s, |t: Target| t.state == TargetState::UpToDate)
    &&& stats.source_missing == count(s, |t: Target| t.state == TargetState::SourceMissing)
    &&& stats.banner_skipped == count(
        s,
        |t: Target| t.state != TargetState::SourceMissing && t.banner != BannerMode::Applied,
    )
    &&& stats.bytes == written_bytes(s)
}

fn plan_one(
    source_rel: &PathBuf,
    source_abs: &PathBuf,
    contents: &Option<Vec<u8>>,
    t: &LoadedTarget,
) -> (res: TargetPlan)
    ensures
        res@ == planned_target(source_rel@, source_abs@, bytes_held(*contents), t@),
{
    let bytes = match contents {
        Some(c) => c,
        None => {
            return TargetPlan {
                source_rel: source_rel.clone(),
                source_abs: source_abs.clone(),
                target: t.target.clone(),
                state: TargetState::SourceMissing,
                banner: banner_mode_for_ext(&t.target),
                bytes: 0,
            };
        },
    };
    let (wanted, banner) = render_target(source_abs, &t.target, bytes);
    let state = match &t.existing {
        Some(e) => if same_bytes(e, &wanted) {
            TargetState::UpToDate
        } else {
            TargetState::Update
        },
        None => TargetState::Create,
    };
    let bytes: u64 = if state == TargetState::UpToDate {
        0
    } else {
        wanted.len() as u64
    };
    TargetPlan {
        source_rel: source_rel.clone(),
        source_abs: source_abs.clone(),
        target: t.target.clone(),
        state,
        banner,
        bytes,
    }
}

proof fn lemma_count_bound(s: Seq<Target>, p: spec_fn(Target) -> bool)
    ensures
        count(s, p) <= s.len(),
    decreases s.len(),
{
    if s.len() > 0 {
        lemma_count_bound(s.drop_last(), p);
    }
}

/// Add one target to a tally.
fn tally(stats: &mut MappingStats, tp: &TargetPlan, Ghost(s): Ghost<Seq<Target>>)
    requires
        tallies(*old(stats), s),
        s.len() < usize::MAX,
        written_bytes(s.push(tp@)) <= u64::MAX,
    ensures
        tallies(*final(stats), s.push(tp@)),
{
    proof {
        assert(s.push(tp@).drop_last() =~= s);
        lemma_count_bound(s, |t: Target| t.state == TargetState::Create);
        lemma_count_bound(s, |t: Target| t.state == TargetState::Update);
        lemma_count_bound(s, |t: Target| t.state == TargetState::UpToDate);
        lemma_count_bound(s, |t: Target| t.state == TargetState::SourceMissing);
        lemma_count_bound(
            s,
            |t: Target| t.state != TargetState::SourceMissing && t.banner != BannerMode::Applied,
        );
    }
    match tp.state {
        TargetState::Create => {
            stats.created += 1;
            stats.bytes += tp.bytes;
        },
        TargetState::Update => {
            stats.updated += 1;
            stats.bytes += tp.bytes;
        },
        TargetState::UpToDate => {
            stats.up_to_date += 1;
        },
        TargetState::SourceMissing => {
            stats.source_missing += 1;
        },
    }
    if tp.state != TargetState::SourceMissing && tp.banner != BannerMode::Applied {
        stats.banner_skipped += 1;
    }
}

proof fn lemma_written_prefix(s: Seq<Target>, t: Seq<Target>)
    requires
        s.is_prefix_of(t),
    ensures
        written_bytes(s) <= written_bytes(t),
    decreases t.len(),
{
    if s.len() == t.len() {
        assert(t.subrange(0, t.len() as int) =~= t);
    } else {
        let u = t.drop_last();
        assert(t.subrange(0, s.len() as int) =~= u.subrange(0, s.len() as int));
        lemma_written_prefix(s, u);
    }
}

proof fn lemma_planned_prefix(source: Seq<u8>, mappings: Seq<Loaded>, i: int)
    requires
        0 <= i <= mappings.len(),
    ensures
        planned_targets(source, mappings.take(i)).is_prefix_of(planned_targets(source, mappings)),
    decreases mappings.len(),
{
    let part = planned_targets(source, mappings.take(i));
    let all = planned_targets(source, mappings);
    if i == mappings.len() {
        assert(mappings.take(i) =~= mappings);
        assert(all.subrange(0, all.len() as int) =~= all);
    } else {
        lemma_planned_prefix(source, mappings.drop_last(), i);
        assert(mappings.drop_last().take(i) =~= mappings.take(i));
        let rest = planned_targets(source, mappings.drop_last());
        assert(all.subrange(0, part.len() as int) =~= rest.subrange(0, part.len() as int));
    }
}

/// The bytes that syncing the mappings would write, where the number fits.
pub fn bytes_to_write(source: &PathBuf, mappings: &Vec<LoadedMapping>) -> (res: Option<u64>)
    ensures
        match res {
            Some(n) => written_bytes(planned_targets(source@, loaded_view(mappings@))) == n,
            None => written_bytes(planned_targets(source@, loaded_view(mappings@))) > u64::MAX,
        },
{
    let ghost maps = loaded_view(mappings@);
    let ghost all = planned_targets(source@, maps);
    let ghost mut done: Seq<Target> = Seq::empty();
    let mut n: u64 = 0;
    for i in 0..mappings.len()
        invariant
            maps == loaded_view(mappings@),
            all == planned_targets(source@, maps),
            done == planned_targets(source@, maps.take(i as int)),
            n == written_bytes(done),
    {
        let m = &mappings[i];
        let source_abs = source.join(&m.source_rel);
        let ghost before = done;
        let ghost mine = planned_mapping(source@, m@);
        proof {
            assert(maps.take(i + 1).drop_last() =~= maps.take(i as int));
            assert(maps.take(i + 1).last() == m@);
            lemma_planned_prefix(source@, maps, i + 1);
            assert(before + mine.take(0) =~= before);
        }
        for j in 0..m.targets.len()
            invariant
                maps == loaded_view(mappings@),
                all == planned_targets(source@, maps),
                mine == planned_mapping(source@, m@),
                source_abs@ == joined(source@, m.source_rel@),
                (before + mine).is_prefix_of(all),
                done == before + mine.take(j as int),
                n == written_bytes(done),
        {
            let tp = plan_one(&m.source_rel, &source_abs, &m.contents, &m.targets[j]);
            proof {
                assert(m@.targets[j as int] == m.targets@[j as int]@);
                assert(mine[j as int] == tp@);
                assert(before + mine.take(j + 1) =~= done.push(tp@));
                assert(done.push(tp@).drop_last() =~= done);
                let next = before + mine.take(j + 1);
                assert((before + mine).subrange(0, next.len() as int) =~= next);
                assert(all.subrange(0, next.len() as int) =~= (before + mine).subrange(
                    0,
                    next.len() as int,
                ));
                lemma_written_prefix(next, all);
                done = next;
            }
            if tp.will_write() {
                if tp.bytes > u64::MAX - n {
                    return None;
                }
                n += tp.bytes;
            }
        }
        assert(mine.take(m.targets@.len() as int) =~= mine);
    }
    assert(maps.take(mappings@.len() as int) =~= maps);
    Some(n)
}

/// Plan every target: its state, found by rendering what it should hold and
/// comparing that with what it holds, and its banner mode; with the totals.
pub fn plan(source: &PathBuf, mappings: &Vec<LoadedMapping>) -> (res: MappingPlan)
    requires
        written_bytes(planned_targets(source@, loaded_view(mappings@))) <= u64::MAX,
    ensures
        targets_view(res.targets@) == planned_targets(source@, loaded_view(mappings@)),
        tallies(res.stats, planned_targets(source@, loaded_view(mappings@))),
{
    let ghost maps = loaded_view(mappings@);
    let ghost all = planned_targets(source@, maps);
    let mut targets: Vec<TargetPlan> = Vec::new();
    let mut stats = MappingStats::default();
    assert(targets_view(targets@) =~= Seq::empty());
    for i in 0..mappings.len()
        invariant
            maps == loaded_view(mappings@),
            all == planned_targets(source@, maps),
            written_bytes(all) <= u64::MAX,
            targets_view(targets@) == planned_targets(source@, maps.take(i as int)),
            tallies(stats, targets_view(targets@)),
    {
        let m = &mappings[i];
        let source_abs = source.join(&m.source_rel);
        let ghost before = targets_view(targets@);
        let ghost mine = planned_mapping(source@, m@);
        proof {
            assert(maps.take(i + 1).drop_last() =~= maps.take(i as int));
            assert(maps.take(i + 1).last() == m@);
            lemma_planned_prefix(source@, maps, i + 1);
            assert(before + mine.take(0) =~= before);
        }
        for j in 0..m.targets.len()
            invariant
                maps == loaded_view(mappings@),
                all == planned_targets(source@, maps),
                written_bytes(all) <= u64::MAX,
                mine == planned_mapping(source@, m@),
                source_abs@ == joined(source@, m.source_rel@),
                (before + mine).is_prefix_of(all),
                targets_view(targets@) == before + mine.take(j as int),
                tallies(stats, targets_view(targets@)),
        {
            let tp = plan_one(&m.source_rel, &source_abs, &m.contents, &m.targets[j]);
            let ghost done = targets_view(targets@);
            proof {
                assert(m@.targets[j as int] == m.targets@[j as int]@);
                assert(mine[j as int] == tp@);
                assert(before + mine.take(j + 1) =~= done.push(tp@));
                let next = before + mine.take(j + 1);
                assert((before + mine).subrange(0, next.len() as int) =~= next);
                assert(all.subrange(0, next.len() as int) =~= (before + mine).subrange(
                    0,
                    next.len() as int,
                ));
                lemma_written_prefix(next, all);
            }
            targets.push(tp);
            assert(targets_view(targets@) =~= done.push(tp@));
            let n: usize = targets.len();
            tally(&mut stats, &targets[n - 1], Ghost(done));
        }
        assert(mine.take(m.targets@.len() as int) =~= mine);
    }
    assert(maps.take(mappings@.len() as int) =~= maps);
    MappingPlan { targets, stats }
}

// --- Apply -----------------------------------------------------------------

/// What to do in the file system for one target: read the source, create the
/// parent directories, then write what [`render_target`] makes of the contents.
#[derive(Debug)]
pub struct TargetWrite {
    pub source_abs: PathBuf,
    pub parent: Option<PathBuf>,
    pub target: PathBuf,
}

/// Hold a target against the guard; unless it is a dry run, say what to write.
/// `target` is the target of `tp` and where it really lies.
pub fn apply_target(
    source: &Place,
    dest_roots: &Vec<Place>,
    tp: &TargetPlan,
    target: &Place,
    dry_run: bool,
) -> (res: Result<Option<TargetWrite>, TargetError>)
    ensures
        match res {
            Ok(write) => {
                &&& is_writable(*source, dest_roots@, target@)
                &&& match write {
                    None => dry_run,
                    Some(w) => {
                        &&& !dry_run
                        &&& w.source_abs@ == tp.source_abs@
                        &&& bytes_in(w.parent) == parent_of(tp.target@)
                        &&& w.target@ == tp.target@
                    },
                }
            },
            Err(e) => refuses(e, *source, dest_roots@, *target),
        },
{
    match guard_target(source, dest_roots, target) {
        Err(e) => Err(e),
        Ok(()) => {
            if dry_run {
                return Ok(None);
            }
            Ok(
                Some(
                    TargetWrite {
                        source_abs: tp.source_abs.clone(),
                        parent: tp.target.parent(),
                        target: tp.target.clone(),
                    },
                ),
            )
        },
    }
}

// --- Laws ------------------------------------------------------------------

/// A target that holds what it should is up to date: once written, it is not
/// written again until the source changes.
pub proof fn law_written_target_is_up_to_date(
    source_rel: Seq<u8>,
    source_abs: Seq<u8>,
    contents: Seq<u8>,
    t: Holding,
)
    requires
        t.existing == Some(rendered(source_abs, t.target, contents).0),
    ensures
        planned_target(source_rel, source_abs, Some(contents), t).state == TargetState::UpToDate,
        !is_written(planned_target(source_rel, source_abs, Some(contents), t).state),
        planned_target(source_rel, source_abs, Some(contents), t).bytes == 0,
{
}

/// A missing source never leads to a write.
pub proof fn law_missing_source_is_skipped(source_rel: Seq<u8>, source_abs: Seq<u8>, t: Holding)
    ensures
        !is_written(planned_target(source_rel, source_abs, None, t).state),
{
}

proof fn lemma_occurrences(paths: Seq<Seq<u8>>, p: Seq<u8>)
    ensures
        occurrences(paths, p) == 0 <==> forall|i: int|
            0 <= i < paths.len() ==> !same_path(#[trigger] paths[i], p),
    decreases paths.len(),
{
    if paths.len() > 0 {
        lemma_occurrences(paths.drop_last(), p);
        if occurrences(paths.drop_last(), p) != 0 {
            let i = choose|i: int|
                0 <= i < paths.drop_last().len() && same_path(#[trigger] paths.drop_last()[i], p);
            assert(same_path(paths[i], p));
        } else if !same_path(paths.last(), p) {
            assert forall|i: int| 0 <= i < paths.len() implies !same_path(
                #[trigger] paths[i],
                p,
            ) by {
                if i < paths.len() - 1 {
                    assert(paths.drop_last()[i] == paths[i]);
                }
            }
        } else {
            assert(same_path(paths[paths.len() - 1], p));
        }
    }
}

/// Validation reports no duplicate exactly where every target is written by at most
/// one mapping.
pub proof fn law_duplicates_are_found(paths: Seq<Seq<u8>>)
    ensures
        duplicates(paths).len() == 0 <==> forall|i: int, j: int|
            #![trigger paths[i], paths[j]]
            0 <= i < j < paths.len() ==> !same_path(paths[i], paths[j]),
    decreases paths.len(),
{
    if paths.len() > 0 {
        let t = paths.drop_last();
        let p = paths.last();
        law_duplicates_are_found(t);
        lemma_occurrences(t, p);
        if duplicates(t).len() == 0 {
            assert forall|i: int, j: int|
                #![trigger t[i], t[j]]
                0 <= i < j < t.len() implies !same_path(t[i], t[j]) by {}
            lemma_at_most_one(t, p);
            if occurrences(t, p) == 0 {
                assert forall|i: int, j: int|
                    #![trigger paths[i], paths[j]]
                    0 <= i < j < paths.len() implies !same_path(paths[i], paths[j]) by {
                    assert(paths[i] == t[i]);
                    if j < t.len() {
                        assert(paths[j] == t[j]);
                    }
                }
            } else {
                let i = choose|i: int| 0 <= i < t.len() && same_path(#[trigger] t[i], p);
                assert(same_path(paths[i], paths[paths.len() - 1]));
            }
        } else {
            let (i, j) = choose|i: int, j: int|
                #![trigger t[i], t[j]]
                0 <= i < j < t.len() && same_path(t[i], t[j]);
            assert(same_path(paths[i], paths[j]));
        }
    }
}

proof fn lemma_at_most_one(paths: Seq<Seq<u8>>, p: Seq<u8>)
    requires
        forall|i: int, j: int|
            #![trigger paths[i], paths[j]]
            0 <= i < j < paths.len() ==> !same_path(paths[i], paths[j]),
    ensures
        occurrences(paths, p) <= 1,
    decreases paths.len(),
{
    if paths.len() > 0 {
        let t = paths.drop_last();
        assert forall|i: int, j: int|
            #![trigger t[i], t[j]]
            0 <= i < j < t.len() implies !same_path(t[i], t[j]) by {
            assert(t[i] == paths[i] && t[j] == paths[j]);
        }
        lemma_at_most_one(t, p);
        if same_path(paths.last(), p) {
            lemma_occurrences(t, p);
            if occurrences(t, p) != 0 {
                let i = choose|i: int| 0 <= i < t.len() && same_path(#[trigger] t[i], p);
                assert(!same_path(paths[i], paths[paths.len() - 1]));
            }
        }
    }
}

proof fn lemma_misplaced(targets: Seq<PlaceModel>, source: Place, roots: Seq<Place>, j: int)
    requires
        0 <= j < targets.len(),
        !is_writable(source, roots, targets[j]),
    ensures
        exists|k: int|
            0 <= k < misplaced(targets, source, roots).len() && is_blocking_flaw(
                #[trigger] misplaced(targets, source, roots)[k],
            ),
    decreases targets.len(),
{
    let all = misplaced(targets, source, roots);
    let rest = misplaced(targets.drop_last(), source, roots);
    if j == targets.len() - 1 {
        assert(is_blocking_flaw(all[rest.len() as int]));
    } else {
        lemma_misplaced(targets.drop_last(), source, roots, j);
        let k = choose|k: int| 0 <= k < rest.len() && is_blocking_flaw(#[trigger] rest[k]);
        assert(all[k] == rest[k]);
    }
}

proof fn lemma_own_flaws(
    mappings: Seq<Located>,
    source: Place,
    roots: Seq<Place>,
    i: int,
    j: int,
)
    requires
        0 <= i < mappings.len(),
        0 <= j < mappings[i].targets.len(),
        !is_writable(source, roots, mappings[i].targets[j]),
    ensures
        exists|k: int|
            0 <= k < own_flaws(mappings, source, roots).len() && is_blocking_flaw(
                #[trigger] own_flaws(mappings, source, roots)[k],
            ),
    decreases mappings.len(),
{
    let all = own_flaws(mappings, source, roots);
    let rest = own_flaws(mappings.drop_last(), source, roots);
    if i == mappings.len() - 1 {
        let bad = misplaced(mappings[i].targets, source, roots);
        lemma_misplaced(mappings[i].targets, source, roots, j);
        let k = choose|k: int| 0 <= k < bad.len() && is_blocking_flaw(#[trigger] bad[k]);
        assert(all[all.len() - bad.len() + k] == bad[k]);
    } else {
        lemma_own_flaws(mappings.drop_last(), source, roots, i, j);
        let k = choose|k: int| 0 <= k < rest.len() && is_blocking_flaw(#[trigger] rest[k]);
        assert(all[k] == rest[k]);
    }
}

/// Where validation finds nothing that blocks a sync, the guard lets every target
/// through.
pub proof fn law_valid_mappings_pass_the_guard(
    mappings: Seq<Located>,
    source: Place,
    roots: Seq<Place>,
    i: int,
    j: int,
)
    requires
        forall|k: int|
            0 <= k < validated(mappings, source, roots).len() ==> !is_blocking_flaw(
                #[trigger] validated(mappings, source, roots)[k],
            ),
        0 <= i < mappings.len(),
        0 <= j < mappings[i].targets.len(),
    ensures
        is_writable(source, roots, mappings[i].targets[j]),
{
    if !is_writable(source, roots, mappings[i].targets[j]) {
        lemma_own_flaws(mappings, source, roots, i, j);
        let own = own_flaws(mappings, source, roots);
        let all = validated(mappings, source, roots);
        let k = choose|k: int| 0 <= k < own.len() && is_blocking_flaw(#[trigger] own[k]);
        let off = duplicates(all_targets(mappings)).len();
        assert(all[off + k] == own[k]);
    }
}

/// Whether one of the flaws blocks a sync.
pub open spec fn some_blocking(s: Seq<Flaw>) -> bool {
    exists|k: int| 0 <= k < s.len() && is_blocking_flaw(#[trigger] s[k])
}

/// Whether a list names some place more than once.
pub open spec fn some_repeated(paths: Seq<Seq<u8>>) -> bool {
    exists|i: int, j: int|
        #![trigger paths[i], paths[j]]
        0 <= i < j < paths.len() && same_path(paths[i], paths[j])
}

/// Whether the guard refuses some target.
pub open spec fn some_refused(mappings: Seq<Located>, source: Place, roots: Seq<Place>) -> bool {
    exists|i: int, j: int|
        #![trigger mappings[i].targets[j]]
        0 <= i < mappings.len() && 0 <= j < mappings[i].targets.len() && !is_writable(
            source,
            roots,
            mappings[i].targets[j],
        )
}

proof fn lemma_misplaced_back(targets: Seq<PlaceModel>, source: Place, roots: Seq<Place>)
    requires
        misplaced(targets, source, roots).len() > 0,
    ensures
        exists|j: int|
            0 <= j < targets.len() && !is_writable(source, roots, #[trigger] targets[j]),
    decreases targets.len(),
{
    if targets.len() > 0 {
        let t = targets.drop_last();
        if misplaced(t, source, roots).len() > 0 {
            lemma_misplaced_back(t, source, roots);
            let j = choose|j: int|
                0 <= j < t.len() && !is_writable(source, roots, #[trigger] t[j]);
            assert(targets[j] == t[j]);
        } else {
            assert(!is_writable(source, roots, targets[targets.len() - 1]));
        }
    }
}

proof fn lemma_own_flaws_back(mappings: Seq<Located>, source: Place, roots: Seq<Place>)
    requires
        some_blocking(own_flaws(mappings, source, roots)),
    ensures
        some_refused(mappings, source, roots),
    decreases mappings.len(),
{
    let all = own_flaws(mappings, source, roots);
    let k = choose|k: int| 0 <= k < all.len() && is_blocking_flaw(#[trigger] all[k]);
    let front = mappings.drop_last();
    let m = mappings.last();
    let rest = own_flaws(front, source, roots);
    let bad = misplaced(m.targets, source, roots);
    if k < rest.len() {
        assert(rest[k] == all[k]);
        lemma_own_flaws_back(front, source, roots);
        let (i, j) = choose|i: int, j: int|
            #![trigger front[i].targets[j]]
            0 <= i < front.len() && 0 <= j < front[i].targets.len() && !is_writable(
                source,
                roots,
                front[i].targets[j],
            );
        assert(mappings[i].targets[j] == front[i].targets[j]);
    } else {
        if bad.len() == 0 {
            assert(all[k] == Flaw::SourceMissing(m.source_rel));
        }
        lemma_misplaced_back(m.targets, source, roots);
        let j = choose|j: int|
            0 <= j < m.targets.len() && !is_writable(source, roots, #[trigger] m.targets[j]);
        assert(mappings[mappings.len() - 1].targets[j] == m.targets[j]);
    }
}

proof fn lemma_duplicates_block(paths: Seq<Seq<u8>>)
    ensures
        forall|k: int|
            0 <= k < duplicates(paths).len() ==> #[trigger] duplicates(
                paths,
            )[k] is DuplicateTarget,
    decreases paths.len(),
{
    if paths.len() > 0 {
        lemma_duplicates_block(paths.drop_last());
    }
}

/// Validation finds something that blocks a sync exactly where a target is written
/// twice or the guard refuses one.
pub proof fn law_blocking_issues_are_exact(
    mappings: Seq<Located>,
    source: Place,
    roots: Seq<Place>,
)
    ensures
        some_blocking(validated(mappings, source, roots)) <==> (some_repeated(
            all_targets(mappings),
        ) || some_refused(mappings, source, roots)),
{
    let paths = all_targets(mappings);
    let dups = duplicates(paths);
    let own = own_flaws(mappings, source, roots);
    let all = validated(mappings, source, roots);
    law_duplicates_are_found(paths);
    lemma_duplicates_block(paths);
    if some_repeated(paths) {
        assert(dups.len() > 0);
        assert(all[0] == dups[0]);
        assert(is_blocking_flaw(all[0]));
    }
    if some_refused(mappings, source, roots) {
        let (i, j) = choose|i: int, j: int|
            #![trigger mappings[i].targets[j]]
            0 <= i < mappings.len() && 0 <= j < mappings[i].targets.len() && !is_writable(
                source,
                roots,
                mappings[i].targets[j],
            );
        lemma_own_flaws(mappings, source, roots, i, j);
        let k = choose|k: int| 0 <= k < own.len() && is_blocking_flaw(#[trigger] own[k]);
        assert(all[dups.len() + k] == own[k]);
    }
    if some_blocking(all) {
        let k = choose|k: int| 0 <= k < all.len() && is_blocking_flaw(#[trigger] all[k]);
        if k >= dups.len() {
            assert(own[k - dups.len()] == all[k]);
            lemma_own_flaws_back(mappings, source, roots);
        }
    }
}

/// What the flaws of a list that `pick` picks say, in order.
pub open spec fn picked(s: Seq<Flaw>, pick: spec_fn(Flaw) -> Option<Seq<u8>>) -> Seq<Seq<u8>>
    decreases s.len(),
{
    if s.len() == 0 {
        Seq::empty()
    } else {
        let rest = picked(s.drop_last(), pick);
        match pick(s.last()) {
            Some(p) => rest.push(p),
            None => rest,
        }
    }
}

/// Picks the sources that are reported as missing.
pub open spec fn missing_source() -> spec_fn(Flaw) -> Option<Seq<u8>> {
    |f: Flaw|
        match f {
            Flaw::SourceMissing(rel) => Some(rel),
            _ => None,
        }
}

/// Picks the targets that are reported as lying in the source or outside every
/// destination.
pub open spec fn misplaced_target() -> spec_fn(Flaw) -> Option<Seq<u8>> {
    |f: Flaw|
        match f {
            Flaw::TargetInSource(p) => Some(p),
            Flaw::TargetOutsideDestinations(p) => Some(p),
            _ => None,
        }
}

/// The sources of the mappings whose source is no file, in order.
pub open spec fn missing_sources(mappings: Seq<Located>) -> Seq<Seq<u8>>
    decreases mappings.len(),
{
    if mappings.len() == 0 {
        Seq::empty()
    } else {
        let rest = missing_sources(mappings.drop_last());
        if mappings.last().source_is_file {
            rest
        } else {
            rest.push(mappings.last().source_rel)
        }
    }
}

/// The targets of a mapping that the guard refuses, in order.
pub open spec fn refused_targets(
    targets: Seq<PlaceModel>,
    source: Place,
    roots: Seq<Place>,
) -> Seq<Seq<u8>>
    decreases targets.len(),
{
    if targets.len() == 0 {
        Seq::empty()
    } else {
        let rest = refused_targets(targets.drop_last(), source, roots);
        if is_writable(source, roots, targets.last()) {
            rest
        } else {
            rest.push(targets.last().path)
        }
    }
}

/// The targets of all mappings that the guard refuses, in order.
pub open spec fn all_refused(mappings: Seq<Located>, source: Place, roots: Seq<Place>) -> Seq<
    Seq<u8>,
>
    decreases mappings.len(),
{
    if mappings.len() == 0 {
        Seq::empty()
    } else {
        all_refused(mappings.drop_last(), source, roots) + refused_targets(
            mappings.last().targets,
            source,
            roots,
        )
    }
}

proof fn lemma_picked_concat(
    a: Seq<Flaw>,
    b: Seq<Flaw>,
    pick: spec_fn(Flaw) -> Option<Seq<u8>>,
)
    ensures
        picked(a + b, pick) == picked(a, pick) + picked(b, pick),
    decreases b.len(),
{
    if b.len() == 0 {
        assert(a + b =~= a);
        assert(picked(a, pick) + picked(b, pick) =~= picked(a, pick));
    } else {
        lemma_picked_concat(a, b.drop_last(), pick);
        assert((a + b).drop_last() =~= a + b.drop_last());
        assert((a + b).last() == b.last());
        assert(picked(a + b, pick) =~= picked(a, pick) + picked(b, pick));
    }
}

proof fn lemma_picked_duplicates(paths: Seq<Seq<u8>>)
    ensures
        picked(duplicates(paths), missing_source()).len() == 0,
        picked(duplicates(paths), misplaced_target()).len() == 0,
    decreases paths.len(),
{
    if paths.len() > 0 {
        lemma_picked_duplicates(paths.drop_last());
        let rest = duplicates(paths.drop_last());
        assert(rest.push(Flaw::DuplicateTarget(paths.last())).drop_last() =~= rest);
    }
}

proof fn lemma_picked_misplaced(targets: Seq<PlaceModel>, source: Place, roots: Seq<Place>)
    ensures
        picked(misplaced(targets, source, roots), missing_source()).len() == 0,
        picked(misplaced(targets, source, roots), misplaced_target()) == refused_targets(
            targets,
            source,
            roots,
        ),
    decreases targets.len(),
{
    if targets.len() > 0 {
        lemma_picked_misplaced(targets.drop_last(), source, roots);
        let rest = misplaced(targets.drop_last(), source, roots);
        let t = targets.last();
        assert(rest.push(Flaw::TargetInSource(t.path)).drop_last() =~= rest);
        assert(rest.push(Flaw::TargetOutsideDestinations(t.path)).drop_last() =~= rest);
    }
}

proof fn lemma_picked_own(mappings: Seq<Located>, source: Place, roots: Seq<Place>)
    ensures
        picked(own_flaws(mappings, source, roots), missing_source()) == missing_sources(mappings),
        picked(own_flaws(mappings, source, roots), misplaced_target()) == all_refused(
            mappings,
            source,
            roots,
        ),
    decreases mappings.len(),
{
    if mappings.len() > 0 {
        let m = mappings.last();
        let rest = own_flaws(mappings.drop_last(), source, roots);
        let gone = if m.source_is_file {
            Seq::empty()
        } else {
            seq![Flaw::SourceMissing(m.source_rel)]
        };
        let bad = misplaced(m.targets, source, roots);
        lemma_picked_own(mappings.drop_last(), source, roots);
        lemma_picked_misplaced(m.targets, source, roots);
        lemma_picked_concat(rest + gone, bad, missing_source());
        lemma_picked_concat(rest + gone, bad, misplaced_target());
        lemma_picked_concat(rest, gone, missing_source());
        lemma_picked_concat(rest, gone, misplaced_target());
        if !m.source_is_file {
            assert(picked(gone.drop_last(), missing_source()) =~= Seq::empty());
            assert(picked(gone.drop_last(), misplaced_target()) =~= Seq::empty());
            assert(picked(gone, missing_source()) =~= seq![m.source_rel]);
            assert(picked(gone, misplaced_target()) =~= Seq::empty());
        }
        assert(picked(own_flaws(mappings, source, roots), missing_source()) =~= missing_sources(
            mappings,
        ));
        assert(picked(own_flaws(mappings, source, roots), misplaced_target()) =~= all_refused(
            mappings,
            source,
            roots,
        ));
    }
}

/// Validation reports a missing source once for each mapping whose source is no file,
/// and one misplacement for each target that the guard refuses, never two.
pub proof fn law_issues_are_reported_once(
    mappings: Seq<Located>,
    source: Place,
    roots: Seq<Place>,
)
    ensures
        picked(validated(mappings, source, roots), missing_source()) == missing_sources(mappings),
        picked(validated(mappings, source, roots), misplaced_target()) == all_refused(
            mappings,
            source,
            roots,
        ),
{
    let dups = duplicates(all_targets(mappings));
    let own = own_flaws(mappings, source, roots);
    lemma_picked_duplicates(all_targets(mappings));
    lemma_picked_own(mappings, source, roots);
    lemma_picked_concat(dups, own, missing_source());
    lemma_picked_concat(dups, own, misplaced_target());
    assert(picked(validated(mappings, source, roots), missing_source()) =~= missing_sources(
        mappings,
    ));
    assert(picked(validated(mappings, source, roots), misplaced_target()) =~= all_refused(
        mappings,
        source,
        roots,
    ));
}

proof fn lemma_written_counts(s: Seq<Target>)
    ensures
        count(s, |t: Target| t.state == TargetState::Create) + count(
            s,
            |t: Target| t.state == TargetState::Update,
        ) == count(s, |t: Target| is_written(t.state)),
        count(s, |t: Target| is_written(t.state)) == 0 <==> forall|i: int|
            0 <= i < s.len() ==> !is_written((#[trigger] s[i]).state),
        count(s, |t: Target| is_written(t.state)) == 0 ==> written_bytes(s) == 0,
    decreases s.len(),
{
    if s.len() > 0 {
        let r = s.drop_last();
        lemma_written_counts(r);
        let n = count(s, |t: Target| is_written(t.state));
        assert(s[s.len() - 1] == s.last());
        if n == 0 {
            assert forall|i: int| 0 <= i < s.len() implies !is_written(
                (#[trigger] s[i]).state,
            ) by {
                if i < r.len() {
                    assert(s[i] == r[i]);
                }
            }
        }
        if forall|i: int| 0 <= i < s.len() ==> !is_written((#[trigger] s[i]).state) {
            assert forall|i: int| 0 <= i < r.len() implies !is_written(
                (#[trigger] r[i]).state,
            ) by {
                assert(r[i] == s[i]);
            }
        }
    }
}

/// The changes of a plan are its targets that are written; where there are none, nothing
/// is written and no bytes are counted.
pub proof fn law_changes_are_writes(stats: MappingStats, s: Seq<Target>)
    requires
        tallies(stats, s),
    ensures
        stats.created + stats.updated == count(s, |t: Target| is_written(t.state)),
        stats.created + stats.updated == 0 <==> forall|i: int|
            0 <= i < s.len() ==> !is_written((#[trigger] s[i]).state),
        stats.created + stats.updated == 0 ==> stats.bytes == 0,
{
    lemma_written_counts(s);
}

/// Syncing a file that a sync wrote stacks no second banner: it comes out as from the
/// file that was synced first. (A banner whose source path holds a line break is not one
/// line, and is not recognised.)
pub proof fn law_banners_do_not_stack(
    source_abs: Seq<u8>,
    earlier: Seq<u8>,
    target: Seq<u8>,
    contents: Seq<u8>,
)
    requires
        !lossy_text(earlier).contains('\n'),
    ensures
        rendered(source_abs, target, rendered(earlier, target, contents).0) == rendered(
            source_abs,
            target,
            contents,
        ),
{
    match style_of(ascii_lower(extension_text_of(target))) {
        Some(style) => {
            if valid_utf8(contents) {
                let t = decode_utf8(contents);
                let once = bannered(style, earlier, t);
                encode_utf8_valid_utf8(once);
                encode_utf8_decode_utf8(once);
                banner::law_banner_is_replaced(style, source_abs, earlier, t);
            }
        },
        None => {},
    }
}

/// A target whose source is there is up to date exactly where it holds what it should,
/// byte for byte; it is created where there is nothing to read, and updated where there
/// is anything else. Just the targets that are created or updated count the bytes that
/// they are to hold.
pub proof fn law_states_tell_what_differs(
    source_rel: Seq<u8>,
    source_abs: Seq<u8>,
    contents: Seq<u8>,
    t: Holding,
)
    ensures
        ({
            let plan = planned_target(source_rel, source_abs, Some(contents), t);
            let wanted = rendered(source_abs, t.target, contents).0;
            &&& plan.state == TargetState::UpToDate <==> t.existing == Some(wanted)
            &&& plan.state == TargetState::Create <==> t.existing is None
            &&& plan.state == TargetState::Update <==> t.existing is Some && t.existing != Some(
                wanted,
            )
            &&& plan.state == TargetState::UpToDate ==> plan.bytes == 0
            &&& plan.state == TargetState::Create || plan.state == TargetState::Update
                ==> plan.bytes == wanted.len()
            &&& plan.source_rel == source_rel && plan.source_abs == source_abs && plan.target
                == t.target
            &&& plan.banner == rendered(source_abs, t.target, contents).1
        }),
{
}

/// A target whose source is gone is reported as missing, whatever it holds, and nothing
/// else is.
pub proof fn law_only_gone_sources_are_missing(
    source_rel: Seq<u8>,
    source_abs: Seq<u8>,
    contents: Option<Seq<u8>>,
    t: Holding,
)
    ensures
        ({
            let plan = planned_target(source_rel, source_abs, contents, t);
            &&& plan.state == TargetState::SourceMissing <==> contents is None
            &&& contents is None ==> plan.bytes == 0 && plan.target == t.target
                && plan.source_rel == source_rel
        }),
{
}

/// How many targets the first `n` mappings have.
pub open spec fn targets_before(mappings: Seq<Loaded>, n: int) -> nat
    decreases n,
{
    if n <= 0 {
        0
    } else {
        targets_before(mappings, n - 1) + mappings[n - 1].targets.len()
    }
}

/// A plan has one row for each target of each mapping, in order, made from what the
/// mapping's source and the target hold; the source is looked up below the source
/// folder.
pub proof fn law_plans_have_a_row_for_each_target(
    source: Seq<u8>,
    mappings: Seq<Loaded>,
    i: int,
    j: int,
)
    requires
        0 <= i < mappings.len(),
        0 <= j < mappings[i].targets.len(),
    ensures
        ({
            let n = targets_before(mappings, i) + j;
            let all = planned_targets(source, mappings);
            &&& n < all.len()
            &&& all.len() == targets_before(mappings, mappings.len() as int)
            &&& all[n] == planned_target(
                mappings[i].source_rel,
                joined(source, mappings[i].source_rel),
                mappings[i].contents,
                mappings[i].targets[j],
            )
        }),
    decreases mappings.len(),
{
    lemma_planned_len(source, mappings);
    let front = mappings.drop_last();
    lemma_planned_len(source, front);
    lemma_targets_before(mappings, front.len() as int);
    let rest = planned_targets(source, front);
    let last = planned_mapping(source, mappings.last());
    if i < front.len() {
        law_plans_have_a_row_for_each_target(source, front, i, j);
        lemma_targets_before(mappings, i);
        assert(front[i] == mappings[i]);
    } else {
        assert(last[j] == planned_target(
            mappings[i].source_rel,
            joined(source, mappings[i].source_rel),
            mappings[i].contents,
            mappings[i].targets[j],
        ));
    }
}

proof fn lemma_targets_before(mappings: Seq<Loaded>, n: int)
    requires
        0 <= n < mappings.len(),
    ensures
        targets_before(mappings.drop_last(), n) == targets_before(mappings, n),
    decreases n,
{
    if n > 0 {
        lemma_targets_before(mappings, n - 1);
    }
}

proof fn lemma_planned_len(source: Seq<u8>, mappings: Seq<Loaded>)
    ensures
        planned_targets(source, mappings).len() == targets_before(mappings, mappings.len() as int),
    decreases mappings.len(),
{
    if mappings.len() > 0 {
        lemma_planned_len(source, mappings.drop_last());
        lemma_targets_before(mappings, mappings.len() - 1);
    }
}

/// The totals of a plan count its rows by state, each row once.
pub proof fn law_totals_count_the_rows(stats: MappingStats, s: Seq<Target>)
    requires
        tallies(stats, s),
    ensures
        stats.created == s.filter(|t: Target| t.state == TargetState::Create).len(),
        stats.updated == s.filter(|t: Target| t.state == TargetState::Update).len(),
        stats.up_to_date == s.filter(|t: Target| t.state == TargetState::UpToDate).len(),
        stats.source_missing == s.filter(|t: Target| t.state == TargetState::SourceMissing).len(),
        stats.created + stats.updated + stats.up_to_date + stats.source_missing == s.len(),
        stats.banner_skipped == s.filter(
            |t: Target| t.state != TargetState::SourceMissing && t.banner != BannerMode::Applied,
        ).len(),
{
    lemma_count_is_filter(s, |t: Target| t.state == TargetState::Create);
    lemma_count_is_filter(s, |t: Target| t.state == TargetState::Update);
    lemma_count_is_filter(s, |t: Target| t.state == TargetState::UpToDate);
    lemma_count_is_filter(s, |t: Target| t.state == TargetState::SourceMissing);
    lemma_count_is_filter(
        s,
        |t: Target| t.state != TargetState::SourceMissing && t.banner != BannerMode::Applied,
    );
    lemma_states_add_up(s);
}

proof fn lemma_count_is_filter(s: Seq<Target>, p: spec_fn(Target) -> bool)
    ensures
        count(s, p) == s.filter(p).len(),
    decreases s.len(),
{
    reveal(Seq::filter);
    if s.len() > 0 {
        lemma_count_is_filter(s.drop_last(), p);
    }
}

proof fn lemma_states_add_up(s: Seq<Target>)
    ensures
        count(s, |t: Target| t.state == TargetState::Create) + count(
            s,
            |t: Target| t.state == TargetState::Update,
        ) + count(s, |t: Target| t.state == TargetState::UpToDate) + count(
            s,
            |t: Target| t.state == TargetState::SourceMissing,
        ) == s.len(),
    decreases s.len(),
{
    if s.len() > 0 {
        lemma_states_add_up(s.drop_last());
    }
}

/// The bytes of a plan are those of its rows that are created or updated.
pub proof fn law_totals_add_up_the_writes(stats: MappingStats, s: Seq<Target>)
    requires
        tallies(stats, s),
    ensures
        stats.bytes == s.filter(
            |t: Target| t.state == TargetState::Create || t.state == TargetState::Update,
        ).fold_left(0, |n: int, t: Target| n + t.bytes),
{
    lemma_bytes_fold(s);
}

proof fn lemma_bytes_fold(s: Seq<Target>)
    ensures
        written_bytes(s) == s.filter(
            |t: Target| t.state == TargetState::Create || t.state == TargetState::Update,
        ).fold_left(0, |n: int, t: Target| n + t.bytes),
    decreases s.len(),
{
    reveal(Seq::filter);
    let p = |t: Target| t.state == TargetState::Create || t.state == TargetState::Update;
    let f = |n: int, t: Target| n + t.bytes;
    if s.len() > 0 {
        lemma_bytes_fold(s.drop_last());
        let r = s.drop_last().filter(p);
        if p(s.last()) {
            assert(r.push(s.last()).drop_last() =~= r);
            assert(r.push(s.last()).fold_left(0, f) == r.fold_left(0, f) + s.last().bytes);
        }
    } else {
        assert(s.filter(p).fold_left(0, f) == 0);
    }
}

/// What a target is to hold: the bytes of its source as they are where its type has no
/// comments or they are no text, and else the text with its banner.
pub proof fn law_rendering_adds_only_a_banner(
    source_abs: Seq<u8>,
    target: Seq<u8>,
    contents: Seq<u8>,
)
    ensures
        ({
            let (bytes, mode) = rendered(source_abs, target, contents);
            match style_of(ascii_lower(extension_text_of(target))) {
                None => bytes == contents && mode == BannerMode::SkippedUnknownExt,
                Some(style) => if valid_utf8(contents) {
                    &&& mode == BannerMode::Applied
                    &&& valid_utf8(bytes)
                    &&& decode_utf8(bytes) == bannered(style, source_abs, decode_utf8(contents))
                } else {
                    bytes == contents && mode == BannerMode::SkippedBinary
                },
            }
        }),
{
    match style_of(ascii_lower(extension_text_of(target))) {
        Some(style) => {
            if valid_utf8(contents) {
                let t = bannered(style, source_abs, decode_utf8(contents));
                encode_utf8_valid_utf8(t);
                encode_utf8_decode_utf8(t);
            }
        },
        None => {},
    }
}

/// The guard lets a target through exactly where it lies inside one of the destination
/// folders and not inside the source, and else says which of the two it is.
pub proof fn law_the_guard_is_exact(source: Place, roots: Seq<Place>, target: Place, e: TargetError)
    ensures
        is_writable(source, roots, target@) <==> !is_within(
            target.resolved@,
            source.resolved@,
        ) && exists|i: int|
            0 <= i < roots.len() && is_within(
                target.resolved@,
                (#[trigger] roots[i]).resolved@,
            ),
        refuses(e, source, roots, target) ==> !is_writable(source, roots, target@),
        refuses(e, source, roots, target) && e is InSource ==> is_within(
            target.resolved@,
            source.resolved@,
        ),
        refuses(e, source, roots, target) && e is OutsideDestinations ==> !is_within(
            target.resolved@,
            source.resolved@,
        ),
{
}

/// How many targets the first `n` mappings have.
pub open spec fn places_before(mappings: Seq<Located>, n: int) -> nat
    decreases n,
{
    if n <= 0 {
        0
    } else {
        places_before(mappings, n - 1) + mappings[n - 1].targets.len()
    }
}

proof fn lemma_places_before(mappings: Seq<Located>, n: int)
    requires
        0 <= n < mappings.len(),
    ensures
        places_before(mappings.drop_last(), n) == places_before(mappings, n),
    decreases n,
{
    if n > 0 {
        lemma_places_before(mappings, n - 1);
    }
}

proof fn lemma_places_grow(mappings: Seq<Located>, i: int, k: int)
    requires
        0 <= i < k <= mappings.len(),
    ensures
        places_before(mappings, i) + mappings[i].targets.len() <= places_before(mappings, k),
    decreases k - i,
{
    if i < k - 1 {
        lemma_places_grow(mappings, i, k - 1);
    }
}

proof fn lemma_all_targets_at(mappings: Seq<Located>, i: int, j: int)
    requires
        0 <= i < mappings.len(),
        0 <= j < mappings[i].targets.len(),
    ensures
        places_before(mappings, i) + j < all_targets(mappings).len(),
        all_targets(mappings)[places_before(mappings, i) + j] == mappings[i].targets[j].path,
    decreases mappings.len(),
{
    let front = mappings.drop_last();
    lemma_all_targets_len(mappings);
    lemma_all_targets_len(front);
    lemma_places_before(mappings, front.len() as int);
    if i < front.len() {
        assert(front[i] == mappings[i]);
        lemma_all_targets_at(front, i, j);
        lemma_places_before(mappings, i);
    }
}

proof fn lemma_all_targets_len(mappings: Seq<Located>)
    ensures
        all_targets(mappings).len() == places_before(mappings, mappings.len() as int),
    decreases mappings.len(),
{
    if mappings.len() > 0 {
        lemma_all_targets_len(mappings.drop_last());
        lemma_places_before(mappings, mappings.len() - 1);
    }
}

/// A file that is the target of two mappings, or twice of one, blocks a sync, and so does
/// one that lies in the source or outside every destination, wherever in the list.
pub proof fn law_faulty_targets_block(
    mappings: Seq<Located>,
    source: Place,
    roots: Seq<Place>,
    i: int,
    j: int,
    k: int,
    l: int,
)
    requires
        0 <= i < mappings.len(),
        0 <= j < mappings[i].targets.len(),
        0 <= k < mappings.len(),
        0 <= l < mappings[k].targets.len(),
    ensures
        (i != k || j != l) && same_path(mappings[i].targets[j].path, mappings[k].targets[l].path)
            ==> exists|n: int|
            0 <= n < validated(mappings, source, roots).len() && !(#[trigger] validated(
                mappings,
                source,
                roots,
            )[n] is SourceMissing),
        is_within(mappings[i].targets[j].resolved, source.resolved@) || (forall|r: int|
            0 <= r < roots.len() ==> !is_within(
                mappings[i].targets[j].resolved,
                (#[trigger] roots[r]).resolved@,
            )) ==> exists|n: int|
            0 <= n < validated(mappings, source, roots).len() && !(#[trigger] validated(
                mappings,
                source,
                roots,
            )[n] is SourceMissing),
{
    let all = validated(mappings, source, roots);
    let paths = all_targets(mappings);
    law_blocking_issues_are_exact(mappings, source, roots);
    if (i != k || j != l) && same_path(
        mappings[i].targets[j].path,
        mappings[k].targets[l].path,
    ) {
        lemma_all_targets_at(mappings, i, j);
        lemma_all_targets_at(mappings, k, l);
        let p = places_before(mappings, i) + j;
        let q = places_before(mappings, k) + l;
        if i < k {
            lemma_places_grow(mappings, i, k);
        } else if k < i {
            lemma_places_grow(mappings, k, i);
        }
        assert(p != q);
        if p < q {
            assert(same_path(paths[p], paths[q]));
        } else {
            assert(same_path(paths[q], paths[p]));
        }
        assert(some_repeated(paths));
        let n = choose|n: int| 0 <= n < all.len() && is_blocking_flaw(#[trigger] all[n]);
        assert(!(all[n] is SourceMissing));
    }
    if is_within(mappings[i].targets[j].resolved, source.resolved@) || (forall|r: int|
        0 <= r < roots.len() ==> !is_within(
            mappings[i].targets[j].resolved,
            (#[trigger] roots[r]).resolved@,
        )) {
        assert(!is_writable(source, roots, mappings[i].targets[j]));
        assert(some_refused(mappings, source, roots));
        let n = choose|n: int| 0 <= n < all.len() && is_blocking_flaw(#[trigger] all[n]);
        assert(!(all[n] is SourceMissing));
    }
}

/// Mappings without fault are not blocked: where each target is one of its own, inside a
/// destination and outside the source, every issue is but a missing source.
pub proof fn law_faultless_mappings_are_not_blocked(
    mappings: Seq<Located>,
    source: Place,
    roots: Seq<Place>,
)
    requires
        forall|i: int, j: int|
            #![trigger mappings[i].targets[j]]
            0 <= i < mappings.len() && 0 <= j < mappings[i].targets.len() ==> !is_within(
                mappings[i].targets[j].resolved,
                source.resolved@,
            ) && exists|r: int|
                0 <= r < roots.len() && is_within(
                    mappings[i].targets[j].resolved,
                    (#[trigger] roots[r]).resolved@,
                ),
        forall|p: int, q: int|
            #![trigger all_targets(mappings)[p], all_targets(mappings)[q]]
            0 <= p < q < all_targets(mappings).len() ==> !same_path(
                all_targets(mappings)[p],
                all_targets(mappings)[q],
            ),
    ensures
        forall|n: int|
            0 <= n < validated(mappings, source, roots).len() ==> #[trigger] validated(
                mappings,
                source,
                roots,
            )[n] is SourceMissing,
{
    law_blocking_issues_are_exact(mappings, source, roots);
    assert(!some_repeated(all_targets(mappings)));
    assert(!some_refused(mappings, source, roots));
    assert forall|n: int|
        0 <= n < validated(mappings, source, roots).len() implies #[trigger] validated(
        mappings,
        source,
        roots,
    )[n] is SourceMissing by {
        assert(!is_blocking_flaw(validated(mappings, source, roots)[n]));
    }
}

/// A place that two targets name is reported as a duplicate.
pub proof fn law_every_duplicate_is_reported(paths: Seq<Seq<u8>>, i: int, j: int)
    requires
        0 <= i < j < paths.len(),
        same_path(paths[i], paths[j]),
    ensures
        exists|n: int|
            0 <= n < duplicates(paths).len() && ((#[trigger] duplicates(
                paths,
            )[n]) matches Flaw::DuplicateTarget(p) && same_path(p, paths[i])),
    decreases paths.len(),
{
    let front = paths.drop_last();
    let rest = duplicates(front);
    let all = duplicates(paths);
    if j < front.len() {
        assert(front[i] == paths[i] && front[j] == paths[j]);
        law_every_duplicate_is_reported(front, i, j);
        let n = choose|n: int|
            0 <= n < rest.len() && ((#[trigger] rest[n]) matches Flaw::DuplicateTarget(p)
                && same_path(p, front[i]));
        assert(all[n] == rest[n]);
    } else {
        let p = paths.last();
        lemma_occurrences(front, p);
        assert(same_path(front[i], p));
        if occurrences(front, p) == 1 {
            assert(all[rest.len() as int] == Flaw::DuplicateTarget(p));
        } else {
            let (a, b) = lemma_two_occurrences(front, p);
            law_every_duplicate_is_reported(front, a, b);
            let n = choose|n: int|
                0 <= n < rest.len() && ((#[trigger] rest[n]) matches Flaw::DuplicateTarget(q)
                    && same_path(q, front[a]));
            assert(all[n] == rest[n]);
        }
    }
}

proof fn lemma_two_occurrences(paths: Seq<Seq<u8>>, p: Seq<u8>) -> (at: (int, int))
    requires
        occurrences(paths, p) >= 2,
    ensures
        0 <= at.0 < at.1 < paths.len(),
        same_path(paths[at.0], p),
        same_path(paths[at.1], p),
    decreases paths.len(),
{
    let front = paths.drop_last();
    if same_path(paths.last(), p) {
        lemma_occurrences(front, p);
        let i = choose|i: int| 0 <= i < front.len() && same_path(#[trigger] front[i], p);
        assert(paths[i] == front[i]);
        (i, paths.len() - 1)
    } else {
        let (a, b) = lemma_two_occurrences(front, p);
        (a, b)
    }
}

/// A row whose source is gone says whether its target could have a banner, by its type.
pub proof fn law_missing_rows_tell_of_the_banner(
    source_rel: Seq<u8>,
    source_abs: Seq<u8>,
    t: Holding,
)
    ensures
        ({
            let plan = planned_target(source_rel, source_abs, None, t);
            &&& plan.banner == BannerMode::Applied <==> style_of(
                ascii_lower(extension_text_of(t.target)),
            ) is Some
            &&& plan.banner == BannerMode::SkippedUnknownExt <==> style_of(
                ascii_lower(extension_text_of(t.target)),
            ) is None
        }),
{
}

} // verus!
