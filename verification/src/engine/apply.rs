//! Turn a [`Plan`] into file-system operations on one destination.
//!
//! Operations write only inside the destination. Before anything else the
//! destination is held against the source: it must neither equal nor contain nor
//! lie inside it, so that no operation can touch a file of the source.

use vstd::prelude::*;
use vstd::string::*;

use crate::engine::diff::{
    actions_at, extras, from_source, lemma_extras_member, lemma_from_source_member, planned,
    DigestPair,
};
use crate::engine::scan::{all_below, law_scanned_paths_are_relative, scanned, Found};
use crate::engine::{acts, Act, Plan, SyncAction};
use crate::path::{
    body_components, climbs, components, is_rooted, is_within, joined, law_disjoint_folders,
    law_join_appends, law_joined_lies_inside, law_parent_components, lies_inside, overlap,
    parent_dir, parent_of, same_path, PathBuf,
};
use crate::resolve::{bytes_in, Located};
use crate::text::lossy_text;

verus! {

// --- Guard -----------------------------------------------------------------

/// Why a destination is refused.
#[derive(Debug, PartialEq, Eq)]
pub enum GuardError {
    /// The path cannot be resolved; why not.
    Unresolved { path: PathBuf, why: String },
    /// The destination is the source.
    IsSource(PathBuf),
    /// The destination lies inside the source.
    InsideSource { destination: PathBuf, source: PathBuf },
    /// The source lies inside the destination.
    ContainsSource { source: PathBuf, destination: PathBuf },
}

/// What a [`GuardError`] says, with its paths as plain bytes.
pub enum Refusal {
    Unresolved(Seq<u8>, Seq<char>),
    IsSource(Seq<u8>),
    InsideSource(Seq<u8>, Seq<u8>),
    ContainsSource(Seq<u8>, Seq<u8>),
}

impl View for GuardError {
    type V = Refusal;

    open spec fn view(&self) -> Refusal {
        match self {
            GuardError::Unresolved { path, why } => Refusal::Unresolved(path@, why@),
            GuardError::IsSource(p) => Refusal::IsSource(p@),
            GuardError::InsideSource { destination, source } => Refusal::InsideSource(
                destination@,
                source@,
            ),
            GuardError::ContainsSource { source, destination } => Refusal::ContainsSource(
                source@,
                destination@,
            ),
        }
    }
}

/// The sentence in which a refusal is reported.
pub open spec fn refusal_text(r: Refusal) -> Seq<char> {
    match r {
        Refusal::Unresolved(p, why) => "resolving path "@ + lossy_text(p)
            + " (does it exist?): "@ + why,
        Refusal::IsSource(p) => "refusing to sync: destination equals the source ("@ + lossy_text(p)
            + ")"@,
        Refusal::InsideSource(d, s) => "refusing to sync: destination "@ + lossy_text(d)
            + " is inside the source "@ + lossy_text(s),
        Refusal::ContainsSource(s, d) => "refusing to sync: source "@ + lossy_text(s)
            + " is inside the destination "@ + lossy_text(d),
    }
}

impl GuardError {
    /// A one-line description.
    pub fn message(&self) -> (res: String)
        ensures
            res@ == refusal_text(self@),
    {
        match self {
            GuardError::Unresolved { path, why } => {
                let mut s = "resolving path ".to_owned();
                s.append(path.display().as_str());
                s.append(" (does it exist?): ");
                s.append(why.as_str());
                s
            },
            GuardError::IsSource(p) => {
                let mut s = "refusing to sync: destination equals the source (".to_owned();
                s.append(p.display().as_str());
                s.append(")");
                s
            },
            GuardError::InsideSource { destination, source } => {
                let mut s = "refusing to sync: destination ".to_owned();
                s.append(destination.display().as_str());
                s.append(" is inside the source ");
                s.append(source.display().as_str());
                s
            },
            GuardError::ContainsSource { source, destination } => {
                let mut s = "refusing to sync: source ".to_owned();
                s.append(source.display().as_str());
                s.append(" is inside the destination ");
                s.append(destination.display().as_str());
                s
            },
        }
    }
}

/// The outcome of holding a destination against the source.
pub open spec fn guarded(
    source: Seq<u8>,
    source_at: Result<Seq<u8>, Seq<char>>,
    destination: Seq<u8>,
    destination_at: Result<Seq<u8>, Seq<char>>,
) -> Result<(Seq<u8>, Seq<u8>), Refusal> {
    match (source_at, destination_at) {
        (Err(why), _) => Err(Refusal::Unresolved(source, why)),
        (Ok(_), Err(why)) => Err(Refusal::Unresolved(destination, why)),
        (Ok(s), Ok(d)) => if same_path(d, s) {
            Err(Refusal::IsSource(s))
        } else if is_within(d, s) {
            Err(Refusal::InsideSource(d, s))
        } else if is_within(s, d) {
            Err(Refusal::ContainsSource(s, d))
        } else {
            Ok((s, d))
        },
    }
}

/// Refuse any layout in which writing into the destination could reach the source:
/// a destination that equals, lies inside or contains it. Gives both resolved paths
/// where there is no such danger.
pub fn guard_destination(source: &Located, destination: &Located) -> (res: Result<
    (PathBuf, PathBuf),
    GuardError,
>)
    ensures
        ({
            let outcome = guarded(source.path@, source.at(), destination.path@, destination.at());
            match res {
                Ok((s, d)) => outcome == Ok::<_, Refusal>((s@, d@)) && !overlap(s@, d@),
                Err(e) => outcome == Err::<(Seq<u8>, Seq<u8>), _>(e@),
            }
        }),
{
    let src = match &source.canonical {
        Ok(p) => p.clone(),
        Err(why) => {
            return Err(GuardError::Unresolved { path: source.path.clone(), why: why.clone() });
        },
    };
    let dst = match &destination.canonical {
        Ok(p) => p.clone(),
        Err(why) => {
            return Err(GuardError::Unresolved { path: destination.path.clone(), why: why.clone() });
        },
    };
    if dst.same(&src) {
        return Err(GuardError::IsSource(src));
    }
    if dst.starts_with(&src) {
        return Err(GuardError::InsideSource { destination: dst, source: src });
    }
    if src.starts_with(&dst) {
        return Err(GuardError::ContainsSource { source: src, destination: dst });
    }
    Ok((src, dst))
}

// --- Operations ------------------------------------------------------------

/// What to do in the file system for one action.
#[derive(Debug, PartialEq, Eq)]
pub enum FsOp {
    /// Create a directory and every missing one above it.
    CreateDirAll(PathBuf),
    /// Create the parent directories, then copy a file.
    CopyFile { parent: Option<PathBuf>, from: PathBuf, to: PathBuf },
    /// Remove a directory with everything in it, where it exists.
    RemoveDirAll(PathBuf),
    /// Remove a file, where it exists.
    RemoveFile(PathBuf),
}

/// What an [`FsOp`] says, with its paths as plain bytes.
pub enum Op {
    CreateDirAll(Seq<u8>),
    CopyFile(Option<Seq<u8>>, Seq<u8>, Seq<u8>),
    RemoveDirAll(Seq<u8>),
    RemoveFile(Seq<u8>),
}

impl View for FsOp {
    type V = Op;

    open spec fn view(&self) -> Op {
        match self {
            FsOp::CreateDirAll(p) => Op::CreateDirAll(p@),
            FsOp::CopyFile { parent, from, to } => Op::CopyFile(bytes_in(*parent), from@, to@),
            FsOp::RemoveDirAll(p) => Op::RemoveDirAll(p@),
            FsOp::RemoveFile(p) => Op::RemoveFile(p@),
        }
    }
}

/// The operation that carries out an action between two roots.
pub open spec fn op_for(a: Act, source: Seq<u8>, destination: Seq<u8>) -> Op {
    let target = joined(destination, a.rel());
    match a {
        Act::CreateDir(_) => Op::CreateDirAll(target),
        Act::Copy(rel, _) => Op::CopyFile(parent_of(target), joined(source, rel), target),
        Act::Overwrite(rel, _) => Op::CopyFile(parent_of(target), joined(source, rel), target),
        Act::Delete(_, is_dir) => if is_dir {
            Op::RemoveDirAll(target)
        } else {
            Op::RemoveFile(target)
        },
    }
}

fn operation(action: &SyncAction, source: &PathBuf, target: PathBuf) -> (res: FsOp)
    ensures
        forall|destination: Seq<u8>|
            target@ == #[trigger] joined(destination, action@.rel()) ==> res@ == op_for(
                action@,
                source@,
                destination,
            ),
{
    match action {
        SyncAction::CreateDir { rel_path: _ } => FsOp::CreateDirAll(target),
        SyncAction::Copy { rel_path, size: _ } => FsOp::CopyFile {
            parent: target.parent(),
            from: source.join(rel_path),
            to: target,
        },
        SyncAction::Overwrite { rel_path, size: _ } => FsOp::CopyFile {
            parent: target.parent(),
            from: source.join(rel_path),
            to: target,
        },
        SyncAction::Delete { rel_path: _, is_dir } => {
            if *is_dir {
                FsOp::RemoveDirAll(target)
            } else {
                FsOp::RemoveFile(target)
            }
        },
    }
}

/// Whether every action works inside the destination: below it, and without going up.
pub open spec fn contained(destination: Seq<u8>, acts: Seq<Act>) -> bool {
    forall|i: int|
        #![trigger acts[i]]
        0 <= i < acts.len() ==> is_within(joined(destination, acts[i].rel()), destination)
            && !climbs(acts[i].rel())
}

/// Whether every action of `plan` works inside `destination`.
pub fn stays_inside(destination: &PathBuf, plan: &Plan) -> (res: bool)
    ensures
        res == contained(destination@, plan.acts()),
{
    for i in 0..plan.actions.len()
        invariant
            forall|j: int|
                #![trigger plan.acts()[j]]
                0 <= j < i ==> is_within(
                    joined(destination@, plan.acts()[j].rel()),
                    destination@,
                ) && !climbs(plan.acts()[j].rel()),
    {
        let target = destination.join(plan.actions[i].rel_path());
        assert(plan.acts()[i as int] == plan.actions@[i as int]@);
        if !target.starts_with(destination) || plan.actions[i].rel_path().climbs() {
            return false;
        }
    }
    true
}

/// One step of applying a plan: the operation, if any, and the progress after it.
#[derive(Debug)]
pub struct Step {
    /// Nothing on a dry run.
    pub op: Option<FsOp>,
    pub done: usize,
    pub total: usize,
}

/// Whether `step` is the `i`-th step of applying `acts`.
pub open spec fn is_step(
    step: Step,
    i: int,
    acts: Seq<Act>,
    source: Seq<u8>,
    destination: Seq<u8>,
    dry_run: bool,
) -> bool {
    &&& step.done == i + 1
    &&& step.total == acts.len()
    &&& match step.op {
        Some(op) => !dry_run && op@ == op_for(acts[i], source, destination),
        None => dry_run,
    }
}

/// The steps that apply `plan` to the destination, in order, each with the progress
/// to report after it. A dry run is guarded too, but no step has an operation.
pub fn apply_with_progress(
    source: &Located,
    destination: &Located,
    plan: &Plan,
    dry_run: bool,
) -> (res: Result<Vec<Step>, GuardError>)
    requires
        destination.at() matches Ok(d) ==> contained(d, plan.acts()),
    ensures
        ({
            let outcome = guarded(source.path@, source.at(), destination.path@, destination.at());
            match res {
                Ok(steps) => outcome matches Ok((s, d)) && {
                    &&& steps@.len() == plan.acts().len()
                    &&& forall|i: int|
                        #![trigger steps@[i]]
                        0 <= i < steps@.len() ==> is_step(
                            steps@[i],
                            i,
                            plan.acts(),
                            s,
                            d,
                            dry_run,
                        )
                },
                Err(e) => outcome == Err::<(Seq<u8>, Seq<u8>), _>(e@),
            }
        }),
{
    let (src, dst) = match guard_destination(source, destination) {
        Ok(pair) => pair,
        Err(e) => {
            return Err(e);
        },
    };
    let total: usize = plan.actions.len();
    let mut steps: Vec<Step> = Vec::new();
    for i in 0..total
        invariant
            total == plan.actions@.len(),
            steps@.len() == i,
            forall|j: int|
                #![trigger steps@[j]]
                0 <= j < i ==> is_step(steps@[j], j, plan.acts(), src@, dst@, dry_run),
    {
        let action = &plan.actions[i];
        assert(plan.acts()[i as int] == action@);
        let op = if dry_run {
            None
        } else {
            Some(operation(action, &src, dst.join(action.rel_path())))
        };
        steps.push(Step { op, done: i + 1, total });
    }
    Ok(steps)
}

// --- Laws ------------------------------------------------------------------

/// What an operation writes to or removes.
pub open spec fn touched(op: Op) -> Seq<u8> {
    match op {
        Op::CreateDirAll(p) => p,
        Op::CopyFile(_, _, to) => to,
        Op::RemoveDirAll(p) => p,
        Op::RemoveFile(p) => p,
    }
}

/// Behind the guard, an action that works inside the destination touches nothing in
/// the source, neither with its target nor with the parent directories that it
/// creates for it.
pub proof fn law_source_is_never_touched(a: Act, source: Seq<u8>, destination: Seq<u8>)
    requires
        !overlap(source, destination),
        is_within(joined(destination, a.rel()), destination),
        !climbs(a.rel()),
        !same_path(joined(destination, a.rel()), destination),
    ensures
        ({
            let op = op_for(a, source, destination);
            &&& lies_inside(touched(op), destination)
            &&& !is_within(touched(op), source)
            &&& op matches Op::CopyFile(Some(parent), _, _) ==> lies_inside(parent, destination)
                && !is_within(parent, source)
        }),
{
    let target = joined(destination, a.rel());
    law_joined_lies_inside(destination, a.rel());
    law_disjoint_folders(target, destination, source);
    if let Some(parent) = parent_of(target) {
        law_parent_components(target);
        let t = components(target);
        let d = components(destination);
        assert(t.subrange(0, d.len() as int) =~= d);
        if d.len() == t.len() {
            assert(t.subrange(0, t.len() as int) =~= t);
        }
        assert(t.drop_last().subrange(0, d.len() as int) =~= d);
        let n = d.len() as int;
        assert(t.drop_last().skip(n) =~= t.skip(n).drop_last());
        assert(!t.skip(n).drop_last().contains(parent_dir())) by {
            if t.skip(n).drop_last().contains(parent_dir()) {
                let k = choose|k: int|
                    0 <= k < t.skip(n).len() - 1 && t.skip(n).drop_last()[k] == parent_dir();
                assert(t.skip(n)[k] == parent_dir());
            }
        }
        law_disjoint_folders(parent, destination, source);
    }
}

/// A relative path that names something and does not go up keeps an action inside the
/// destination, and what it copies comes from inside the source.
pub proof fn law_relative_actions_stay_inside(a: Act, source: Seq<u8>, destination: Seq<u8>)
    requires
        !is_rooted(a.rel()),
        !climbs(a.rel()),
        body_components(a.rel()).len() > 0,
        source.len() > 0,
        destination.len() > 0,
    ensures
        lies_inside(joined(destination, a.rel()), destination),
        !same_path(joined(destination, a.rel()), destination),
        op_for(a, source, destination) matches Op::CopyFile(_, from, _) ==> lies_inside(
            from,
            source,
        ),
{
    law_join_appends(destination, a.rel());
    law_join_appends(source, a.rel());
    law_joined_lies_inside(destination, a.rel());
    law_joined_lies_inside(source, a.rel());
}

/// A sync leaves the source alone: whatever the plan for two scanned folders does, it
/// does inside the destination and outside the source.
pub proof fn law_syncs_leave_the_source_alone(
    source_root: Seq<u8>,
    source_found: Seq<Found>,
    destination_root: Seq<u8>,
    destination_found: Seq<Found>,
    digests: Seq<DigestPair>,
    delete_extras: bool,
    a: Act,
    source: Seq<u8>,
    destination: Seq<u8>,
)
    requires
        source_root.len() > 0,
        destination_root.len() > 0,
        all_below(source_root, source_found),
        all_below(destination_root, destination_found),
        planned(
            scanned(source_root, source_found),
            scanned(destination_root, destination_found),
            digests,
            delete_extras,
        ).contains(a),
        source.len() > 0,
        destination.len() > 0,
        !overlap(source, destination),
    ensures
        ({
            let op = op_for(a, source, destination);
            &&& lies_inside(touched(op), destination)
            &&& !is_within(touched(op), source)
            &&& op matches Op::CopyFile(Some(parent), _, _) ==> lies_inside(parent, destination)
                && !is_within(parent, source)
            &&& op matches Op::CopyFile(_, from, _) ==> lies_inside(from, source)
        }),
{
    let s = scanned(source_root, source_found);
    let d = scanned(destination_root, destination_found);
    law_scanned_paths_are_relative(source_root, source_found);
    law_scanned_paths_are_relative(destination_root, destination_found);
    let driven = from_source(s, d, digests);
    let all = planned(s, d, digests, delete_extras);
    let j = choose|j: int| 0 <= j < all.len() && all[j] == a;
    if j < driven.len() {
        lemma_from_source_member(s, d, digests, j);
        let i = choose|i: int|
            0 <= i < s.len() && actions_at(#[trigger] s[i], d, digests).contains(driven[j]);
        assert(a.rel() == s[i].rel);
    } else {
        lemma_extras_member(s, d, j - driven.len());
        assert(all[j] == extras(s, d)[j - driven.len()]);
    }
    law_relative_actions_stay_inside(a, source, destination);
    law_source_is_never_touched(a, source, destination);
}

/// The guard lets a destination pass exactly where both folders can be resolved and neither
/// lies within the other, and hands on what they are resolved to.
pub proof fn law_the_guard_is_exact(
    source: Seq<u8>,
    source_at: Result<Seq<u8>, Seq<char>>,
    destination: Seq<u8>,
    destination_at: Result<Seq<u8>, Seq<char>>,
)
    ensures
        guarded(source, source_at, destination, destination_at) is Ok <==> (source_at matches Ok(s)
            && destination_at matches Ok(d) && !components(s).is_prefix_of(components(d))
            && !components(d).is_prefix_of(components(s))),
        guarded(source, source_at, destination, destination_at) matches Ok((s, d)) ==> source_at
            == Ok::<Seq<u8>, Seq<char>>(s) && destination_at == Ok::<Seq<u8>, Seq<char>>(d),
        guarded(source, source_at, destination, destination_at) matches Err(
            Refusal::Unresolved(p, why),
        ) ==> (p == source && source_at == Err::<Seq<u8>, _>(why)) || (p == destination
            && destination_at == Err::<Seq<u8>, _>(why)),
{
    if let Ok(s) = source_at {
        let c = components(s);
        assert(c.subrange(0, c.len() as int) =~= c);
    }
}

/// Each action of a plan is carried out in its turn, unless it is a dry run, which carries
/// out none.
pub proof fn law_steps_carry_out_the_plan(
    step: Step,
    i: int,
    acts: Seq<Act>,
    source: Seq<u8>,
    destination: Seq<u8>,
    dry_run: bool,
)
    requires
        is_step(step, i, acts, source, destination, dry_run),
    ensures
        dry_run <==> step.op is None,
        step.op matches Some(op) ==> op@ == op_for(acts[i], source, destination),
        step.done == i + 1,
        step.total == acts.len(),
{
}

/// What the operation for an action is: a deletion removes, with what is in it where it is
/// a directory; a directory is made; a file is copied from the same path in the source,
/// once the folder for it is there.
pub proof fn law_operations_do_what_actions_say(a: Act, source: Seq<u8>, destination: Seq<u8>)
    ensures
        ({
            let target = joined(destination, a.rel());
            match a {
                Act::CreateDir(_) => op_for(a, source, destination) == Op::CreateDirAll(target),
                Act::Delete(_, is_dir) => op_for(a, source, destination) == if is_dir {
                    Op::RemoveDirAll(target)
                } else {
                    Op::RemoveFile(target)
                },
                _ => op_for(a, source, destination) == Op::CopyFile(
                    parent_of(target),
                    joined(source, a.rel()),
                    target,
                ),
            }
        }),
{
}

/// The plan for two scanned folders never leaves the destination, so that it can always be
/// applied.
pub proof fn law_plans_of_scans_are_contained(
    source_root: Seq<u8>,
    source_found: Seq<Found>,
    destination_root: Seq<u8>,
    destination_found: Seq<Found>,
    digests: Seq<DigestPair>,
    delete_extras: bool,
    acts: Seq<Act>,
    destination: Seq<u8>,
)
    requires
        source_root.len() > 0,
        destination_root.len() > 0,
        destination.len() > 0,
        all_below(source_root, source_found),
        all_below(destination_root, destination_found),
        forall|a: Act| #[trigger]
            acts.contains(a) ==> planned(
                scanned(source_root, source_found),
                scanned(destination_root, destination_found),
                digests,
                delete_extras,
            ).contains(a),
    ensures
        contained(destination, acts),
{
    let s = scanned(source_root, source_found);
    let d = scanned(destination_root, destination_found);
    law_scanned_paths_are_relative(source_root, source_found);
    law_scanned_paths_are_relative(destination_root, destination_found);
    let driven = from_source(s, d, digests);
    let all = planned(s, d, digests, delete_extras);
    assert forall|i: int| #![trigger acts[i]] 0 <= i < acts.len() implies is_within(
        joined(destination, acts[i].rel()),
        destination,
    ) && !climbs(acts[i].rel()) by {
        let a = acts[i];
        assert(acts.contains(a));
        let j = choose|j: int| 0 <= j < all.len() && all[j] == a;
        if j < driven.len() {
            lemma_from_source_member(s, d, digests, j);
            let m = choose|m: int|
                0 <= m < s.len() && actions_at(#[trigger] s[m], d, digests).contains(driven[j]);
            assert(a.rel() == s[m].rel);
        } else {
            lemma_extras_member(s, d, j - driven.len());
            assert(all[j] == extras(s, d)[j - driven.len()]);
        }
        law_join_appends(destination, a.rel());
    }
}

/// An action that would leave the destination, by an absolute path or by going up, is
/// never contained.
pub proof fn law_escaping_actions_are_caught(destination: Seq<u8>, acts: Seq<Act>, i: int)
    requires
        0 <= i < acts.len(),
        components(acts[i].rel()).contains(seq![46u8, 46u8]) || !components(
            destination,
        ).is_prefix_of(components(joined(destination, acts[i].rel()))),
    ensures
        !contained(destination, acts),
{
    assert(acts[i] == acts[i]);
}

} // verus!
