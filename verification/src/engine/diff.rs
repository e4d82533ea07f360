//! Compute a [`Plan`] from the source scan versus one destination scan.
//!
//! - in the source, not in the destination: `Copy` (file) or `CreateDir` (directory)
//! - in both, sizes differ: `Overwrite`
//! - in both, sizes equal: `Overwrite` where the content hashes differ
//! - in the destination, not in the source: `Delete`, only on request
//!
//! Where a path is a file on one side and a directory on the other, the
//! destination entry is removed first, then created or copied anew. Actions come
//! in an order in which they can be applied: deletions (deepest first), then
//! directories (shallowest first), then files.

use vstd::prelude::*;

use crate::engine::hash::Digest;
use crate::engine::{
    acts, key, keys_unique, lemma_acts_push, lemma_position, lookup, Act, Entry, FileEntry, Plan,
    Scan, Stats, SyncAction,
};
use crate::path::{
    components, lemma_key_order, lemma_key_order_transitive, path_order, Order, PathBuf,
};
use crate::sorting::{self, Ranked};

verus! {

/// The content hashes of a file that both sides have at `rel_path`.
#[derive(Debug)]
pub struct DigestPair {
    pub rel_path: PathBuf,
    pub source: Digest,
    pub destination: Digest,
}

/// Why two scans could not be compared.
#[derive(Debug, PartialEq, Eq)]
pub enum DiffError {
    /// The files at this path have the same size and no hashes were given.
    Unhashed(PathBuf),
}

// --- What is planned -------------------------------------------------------

/// Whether the digests given for location `k` differ; nothing where none are given.
pub open spec fn verdict(digests: Seq<DigestPair>, k: Seq<Seq<u8>>) -> Option<bool>
    decreases digests.len(),
{
    if digests.len() == 0 {
        None
    } else if components(digests.last().rel_path@) == k {
        Some(digests.last().source@ != digests.last().destination@)
    } else {
        verdict(digests.drop_last(), k)
    }
}

/// Whether only the contents can tell if a source entry and what the destination
/// has in its place differ.
pub open spec fn is_contested(src: Entry, dst: Option<Entry>) -> bool {
    !src.is_dir && (dst matches Some(d) && !d.is_dir && d.size == src.size)
}

/// The actions that a source entry calls for, given what the destination has in
/// its place; `differs` settles contested entries.
pub open spec fn actions_for(src: Entry, dst: Option<Entry>, differs: bool) -> Seq<Act> {
    match dst {
        None => if src.is_dir {
            seq![Act::CreateDir(src.rel)]
        } else {
            seq![Act::Copy(src.rel, src.size)]
        },
        Some(d) => if src.is_dir && d.is_dir {
            seq![]
        } else if src.is_dir {
            seq![Act::Delete(src.rel, false), Act::CreateDir(src.rel)]
        } else if d.is_dir {
            seq![Act::Delete(src.rel, true), Act::Overwrite(src.rel, src.size)]
        } else if d.size != src.size || differs {
            seq![Act::Overwrite(src.rel, src.size)]
        } else {
            seq![]
        },
    }
}

/// The actions for one source entry under the given digests.
pub open spec fn actions_at(e: Entry, destination: Seq<Entry>, digests: Seq<DigestPair>) -> Seq<Act> {
    actions_for(e, lookup(destination, key(e)), verdict(digests, key(e)) == Some(true))
}

/// The actions that the source entries call for.
pub open spec fn from_source(
    source: Seq<Entry>,
    destination: Seq<Entry>,
    digests: Seq<DigestPair>,
) -> Seq<Act>
    decreases source.len(),
{
    if source.len() == 0 {
        seq![]
    } else {
        from_source(source.drop_last(), destination, digests) + actions_at(
            source.last(),
            destination,
            digests,
        )
    }
}

/// The deletions of what only the destination has.
pub open spec fn extras(source: Seq<Entry>, destination: Seq<Entry>) -> Seq<Act>
    decreases destination.len(),
{
    if destination.len() == 0 {
        seq![]
    } else {
        let d = destination.last();
        let rest = extras(source, destination.drop_last());
        if lookup(source, key(d)) is None {
            rest.push(Act::Delete(d.rel, d.is_dir))
        } else {
            rest
        }
    }
}

/// Every action of a plan, in no particular order.
pub open spec fn planned(
    source: Seq<Entry>,
    destination: Seq<Entry>,
    digests: Seq<DigestPair>,
    delete_extras: bool,
) -> Seq<Act> {
    from_source(source, destination, digests) + (if delete_extras {
        extras(source, destination)
    } else {
        seq![]
    })
}

/// The first contested source entry for which no digests are given.
pub open spec fn first_unhashed(
    source: Seq<Entry>,
    destination: Seq<Entry>,
    digests: Seq<DigestPair>,
) -> Option<Seq<u8>>
    decreases source.len(),
{
    if source.len() == 0 {
        None
    } else {
        let e = source.last();
        match first_unhashed(source.drop_last(), destination, digests) {
            Some(rel) => Some(rel),
            None => if is_contested(e, lookup(destination, key(e))) && verdict(digests, key(e))
                is None {
                Some(e.rel)
            } else {
                None
            },
        }
    }
}

// --- Order -----------------------------------------------------------------

/// The phase in which an action is applied: deletions, directories, files.
pub open spec fn phase_of(a: Act) -> int {
    match a {
        Act::Delete(_, _) => 0,
        Act::CreateDir(_) => 1,
        Act::Copy(_, _) => 2,
        Act::Overwrite(_, _) => 2,
    }
}

/// How deep in the tree an action works.
pub open spec fn depth_of(a: Act) -> int {
    components(a.rel()).len() as int
}

/// Whether `a` is applied before `b`: by phase; deletions deepest first, all else
/// shallowest first; then by path.
pub open spec fn precedes(a: Act, b: Act) -> bool {
    if phase_of(a) != phase_of(b) {
        phase_of(a) < phase_of(b)
    } else if depth_of(a) != depth_of(b) {
        if phase_of(a) == 0 {
            depth_of(a) > depth_of(b)
        } else {
            depth_of(a) < depth_of(b)
        }
    } else {
        path_order(a.rel(), b.rel()) == Order::Less
    }
}

/// Whether every action is applied before all that follow it.
pub open spec fn apply_ordered(s: Seq<Act>) -> bool {
    forall|i: int, j: int|
        #![trigger s[i], s[j]]
        0 <= i < j < s.len() ==> precedes(s[i], s[j])
}

// --- Totals ----------------------------------------------------------------

/// How many actions of a list satisfy `p`.
pub open spec fn count(s: Seq<Act>, p: spec_fn(Act) -> bool) -> nat
    decreases s.len(),
{
    if s.len() == 0 {
        0
    } else {
        count(s.drop_last(), p) + (if p(s.last()) {
            1nat
        } else {
            0
        })
    }
}

/// The bytes that an action writes.
pub open spec fn bytes_of(a: Act) -> nat {
    match a {
        Act::Copy(_, size) => size as nat,
        Act::Overwrite(_, size) => size as nat,
        _ => 0,
    }
}

/// The bytes that a list of actions writes.
pub open spec fn total_bytes(s: Seq<Act>) -> nat
    decreases s.len(),
{
    if s.len() == 0 {
        0
    } else {
        total_bytes(s.drop_last()) + bytes_of(s.last())
    }
}

/// Whether `stats` counts the actions of `s` by kind and adds up their bytes.
pub open spec fn tallies(stats: Stats, s: Seq<Act>) -> bool {
    &&& stats.create_dirs == count(s, |a: Act| a is CreateDir)
    &&& stats.copies == count(s, |a: Act| a is Copy)
    &&& stats.overwrites == count(s, |a: Act| a is Overwrite)
    &&& stats.deletes == count(s, |a: Act| a is Delete)
    &&& stats.bytes == total_bytes(s)
}

/// The sizes of all files of a scan, added up.
pub open spec fn file_bytes(s: Seq<Entry>) -> nat
    decreases s.len(),
{
    if s.len() == 0 {
        0
    } else {
        file_bytes(s.drop_last()) + (if s.last().is_dir {
            0
        } else {
            s.last().size as nat
        })
    }
}

// --- Sorting ---------------------------------------------------------------

fn phase(a: &SyncAction) -> (res: u8)
    ensures
        res == phase_of(a@),
{
    match a {
        SyncAction::Delete { rel_path: _, is_dir: _ } => 0,
        SyncAction::CreateDir { rel_path: _ } => 1,
        SyncAction::Copy { rel_path: _, size: _ } => 2,
        SyncAction::Overwrite { rel_path: _, size: _ } => 2,
    }
}

fn comes_before(a: &SyncAction, b: &SyncAction) -> (res: bool)
    ensures
        res == precedes(a@, b@),
{
    let pa = phase(a);
    let pb = phase(b);
    if pa != pb {
        return pa < pb;
    }
    let da = a.rel_path().depth();
    let db = b.rel_path().depth();
    if da != db {
        return if pa == 0 {
            da > db
        } else {
            da < db
        };
    }
    a.rel_path().order(b.rel_path()) == Order::Less
}

impl Ranked for SyncAction {
    open spec fn le(&self, other: &SyncAction) -> bool {
        !precedes(other@, self@)
    }

    proof fn le_total(&self, other: &SyncAction) {
        lemma_key_order(components(self@.rel()), components(other@.rel()));
    }

    proof fn le_transitive(&self, mid: &SyncAction, other: &SyncAction) {
        let a = components(self@.rel());
        let b = components(mid@.rel());
        let c = components(other@.rel());
        lemma_key_order(a, b);
        lemma_key_order(b, c);
        lemma_key_order(a, c);
        if path_order(self@.rel(), mid@.rel()) == Order::Less && path_order(mid@.rel(), other@.rel())
            == Order::Less {
            lemma_key_order_transitive(a, b, c);
        }
    }

    fn at_most(&self, other: &SyncAction) -> (res: bool) {
        !comes_before(other, self)
    }
}

/// Whether no two actions have the same phase and location.
spec fn all_distinct(s: Seq<Act>) -> bool {
    forall|i: int, j: int|
        #![trigger s[i], s[j]]
        0 <= i < j < s.len() ==> phase_of(s[i]) != phase_of(s[j]) || components(s[i].rel())
            != components(s[j].rel())
}

fn sort_actions(actions: &Vec<SyncAction>) -> (res: Vec<SyncAction>)
    requires
        all_distinct(acts(actions@)),
    ensures
        res@.len() == actions@.len(),
        apply_ordered(acts(res@)),
        forall|a: Act| #[trigger] acts(res@).contains(a) <==> acts(actions@).contains(a),
{
    let order = sorting::sort_positions(actions);
    let mut res: Vec<SyncAction> = Vec::new();
    for i in 0..order.len()
        invariant
            sorting::is_sorting(actions@, order@),
            res@.len() == i,
            forall|k: int|
                #![trigger res@[k]]
                0 <= k < i ==> res@[k]@ == actions@[order@[k] as int]@,
    {
        res.push(actions[order[i]].clone());
    }
    proof {
        let from = acts(actions@);
        let to = acts(res@);
        assert forall|i: int, j: int|
            #![trigger to[i], to[j]]
            0 <= i < j < to.len() implies precedes(to[i], to[j]) by {
            let p = order@[i] as int;
            let q = order@[j] as int;
            assert(sorting::ahead(actions@, p, q));
            assert(to[i] == res@[i]@ && to[j] == res@[j]@);
            assert(from[p] == actions@[p]@ && from[q] == actions@[q]@);
            if actions@[q].le(&actions@[p]) {
                assert(p < q);
                assert(phase_of(from[p]) != phase_of(from[q]) || components(from[p].rel())
                    != components(from[q].rel()));
                lemma_key_order(components(from[p].rel()), components(from[q].rel()));
            }
        }
        assert forall|a: Act| #[trigger] to.contains(a) <==> from.contains(a) by {
            if to.contains(a) {
                let i = choose|i: int| 0 <= i < to.len() && to[i] == a;
                assert(to[i] == res@[i]@);
                assert(from[order@[i] as int] == a);
            }
            if from.contains(a) {
                let p = choose|p: int| 0 <= p < from.len() && from[p] == a;
                assert(order@.contains(p as usize));
                let i = choose|i: int| 0 <= i < order@.len() && order@[i] == p as usize;
                assert(to[i] == res@[i]@);
            }
        }
    }
    res
}

// --- Totals ----------------------------------------------------------------

proof fn lemma_count_bound(s: Seq<Act>, p: spec_fn(Act) -> bool)
    ensures
        count(s, p) <= s.len(),
    decreases s.len(),
{
    if s.len() > 0 {
        lemma_count_bound(s.drop_last(), p);
    }
}

proof fn lemma_total_bytes_take(s: Seq<Act>, i: int)
    requires
        0 <= i <= s.len(),
    ensures
        total_bytes(s.take(i)) <= total_bytes(s),
    decreases s.len(),
{
    if i == s.len() {
        assert(s.take(i) =~= s);
    } else {
        lemma_total_bytes_take(s.drop_last(), i);
        assert(s.drop_last().take(i) =~= s.take(i));
    }
}

fn stats_of(actions: &Vec<SyncAction>) -> (res: Stats)
    requires
        total_bytes(acts(actions@)) <= u64::MAX,
    ensures
        tallies(res, acts(actions@)),
{
    let mut s = Stats::default();
    let ghost all = acts(actions@);
    for i in 0..actions.len()
        invariant
            all == acts(actions@),
            tallies(s, all.take(i as int)),
            total_bytes(all) <= u64::MAX,
    {
        proof {
            let t = all.take(i as int);
            lemma_count_bound(t, |a: Act| a is CreateDir);
            lemma_count_bound(t, |a: Act| a is Copy);
            lemma_count_bound(t, |a: Act| a is Overwrite);
            lemma_count_bound(t, |a: Act| a is Delete);
            lemma_total_bytes_take(all, i + 1);
            assert(all.take(i + 1).drop_last() =~= t);
            assert(all.take(i + 1).last() == actions@[i as int]@);
        }
        match &actions[i] {
            SyncAction::CreateDir { rel_path: _ } => {
                s.create_dirs += 1;
            },
            SyncAction::Copy { rel_path: _, size } => {
                s.copies += 1;
                s.bytes += *size;
            },
            SyncAction::Overwrite { rel_path: _, size } => {
                s.overwrites += 1;
                s.bytes += *size;
            },
            SyncAction::Delete { rel_path: _, is_dir: _ } => {
                s.deletes += 1;
            },
        }
    }
    assert(all.take(actions@.len() as int) =~= all);
    s
}

proof fn lemma_total_bytes_concat(a: Seq<Act>, b: Seq<Act>)
    ensures
        total_bytes(a + b) == total_bytes(a) + total_bytes(b),
    decreases b.len(),
{
    if b.len() == 0 {
        assert(a + b =~= a);
    } else {
        lemma_total_bytes_concat(a, b.drop_last());
        assert((a + b).drop_last() =~= a + b.drop_last());
    }
}

proof fn lemma_from_source_bytes(
    source: Seq<Entry>,
    destination: Seq<Entry>,
    digests: Seq<DigestPair>,
)
    ensures
        total_bytes(from_source(source, destination, digests)) <= file_bytes(source),
    decreases source.len(),
{
    if source.len() > 0 {
        lemma_from_source_bytes(source.drop_last(), destination, digests);
        let a = actions_at(source.last(), destination, digests);
        lemma_total_bytes_concat(from_source(source.drop_last(), destination, digests), a);
        assert(total_bytes(a) <= (if source.last().is_dir {
            0
        } else {
            source.last().size as nat
        })) by {
            reveal_with_fuel(total_bytes, 3);
        }
    }
}

proof fn lemma_extras_bytes(source: Seq<Entry>, destination: Seq<Entry>)
    ensures
        total_bytes(extras(source, destination)) == 0,
    decreases destination.len(),
{
    if destination.len() > 0 {
        lemma_extras_bytes(source, destination.drop_last());
        let e = extras(source, destination);
        let rest = extras(source, destination.drop_last());
        if e.len() > rest.len() {
            assert(e.drop_last() =~= rest);
        }
    }
}

/// The sizes of all files of `scan`, added up, where the sum fits.
pub fn total_file_bytes(scan: &Scan) -> (res: Option<u64>)
    ensures
        match res {
            Some(n) => file_bytes(scan@) == n,
            None => file_bytes(scan@) > u64::MAX,
        },
{
    let mut n: u64 = 0;
    for i in 0..scan.entries.len()
        invariant
            n == file_bytes(scan@.take(i as int)),
    {
        proof {
            assert(scan@.take(i + 1).drop_last() =~= scan@.take(i as int));
            assert(scan@.take(i + 1).last() == scan.entries@[i as int]@);
            lemma_file_bytes_take(scan@, i + 1);
        }
        if !scan.entries[i].is_dir {
            if scan.entries[i].size > u64::MAX - n {
                return None;
            }
            n += scan.entries[i].size;
        }
    }
    assert(scan@.take(scan@.len() as int) =~= scan@);
    Some(n)
}

proof fn lemma_file_bytes_take(s: Seq<Entry>, i: int)
    requires
        0 <= i <= s.len(),
    ensures
        file_bytes(s.take(i)) <= file_bytes(s),
    decreases s.len(),
{
    if i == s.len() {
        assert(s.take(i) =~= s);
    } else {
        lemma_file_bytes_take(s.drop_last(), i);
        assert(s.drop_last().take(i) =~= s.take(i));
    }
}

// --- Distinctness ----------------------------------------------------------

/// Every action of [`from_source`] works at the location of a source entry and is
/// one of the actions for that entry.
pub proof fn lemma_from_source_member(
    source: Seq<Entry>,
    destination: Seq<Entry>,
    digests: Seq<DigestPair>,
    j: int,
)
    requires
        0 <= j < from_source(source, destination, digests).len(),
    ensures
        exists|i: int|
            0 <= i < source.len() && actions_at(#[trigger] source[i], destination, digests).contains(
                from_source(source, destination, digests)[j],
            ),
    decreases source.len(),
{
    let rest = from_source(source.drop_last(), destination, digests);
    let last = actions_at(source.last(), destination, digests);
    if j < rest.len() {
        lemma_from_source_member(source.drop_last(), destination, digests, j);
        let i = choose|i: int|
            0 <= i < source.drop_last().len() && actions_at(
                #[trigger] source.drop_last()[i],
                destination,
                digests,
            ).contains(rest[j]);
        assert(source[i] == source.drop_last()[i]);
    } else {
        assert(last[j - rest.len()] == from_source(source, destination, digests)[j]);
        assert(source[source.len() - 1] == source.last());
    }
}

/// Every action that a source entry calls for is in [`from_source`].
pub proof fn lemma_from_source_covers(
    source: Seq<Entry>,
    destination: Seq<Entry>,
    digests: Seq<DigestPair>,
    i: int,
    a: Act,
)
    requires
        0 <= i < source.len(),
        actions_at(source[i], destination, digests).contains(a),
    ensures
        from_source(source, destination, digests).contains(a),
    decreases source.len(),
{
    let all = from_source(source, destination, digests);
    let rest = from_source(source.drop_last(), destination, digests);
    let last = actions_at(source.last(), destination, digests);
    if i < source.len() - 1 {
        lemma_from_source_covers(source.drop_last(), destination, digests, i, a);
        let j = choose|j: int| 0 <= j < rest.len() && rest[j] == a;
        assert(all[j] == a);
    } else {
        let j = choose|j: int| 0 <= j < last.len() && last[j] == a;
        assert(all[rest.len() + j] == a);
    }
}

/// Every action of [`extras`] deletes a destination entry whose location the
/// source does not have.
pub proof fn lemma_extras_member(source: Seq<Entry>, destination: Seq<Entry>, j: int)
    requires
        0 <= j < extras(source, destination).len(),
    ensures
        exists|i: int|
            #![trigger destination[i]]
            0 <= i < destination.len() && lookup(source, key(destination[i])) is None && extras(
                source,
                destination,
            )[j] == Act::Delete(destination[i].rel, destination[i].is_dir),
    decreases destination.len(),
{
    let rest = extras(source, destination.drop_last());
    if j < rest.len() {
        lemma_extras_member(source, destination.drop_last(), j);
        let t = destination.drop_last();
        let i = choose|i: int|
            #![trigger t[i]]
            0 <= i < t.len() && lookup(source, key(t[i])) is None && rest[j] == Act::Delete(
                t[i].rel,
                t[i].is_dir,
            );
        assert(destination[i] == t[i]);
    } else {
        assert(destination[destination.len() - 1] == destination.last());
    }
}

/// Every destination entry whose location the source does not have is deleted by
/// an action of [`extras`].
pub proof fn lemma_extras_covers(source: Seq<Entry>, destination: Seq<Entry>, i: int)
    requires
        0 <= i < destination.len(),
        lookup(source, key(destination[i])) is None,
    ensures
        extras(source, destination).contains(
            Act::Delete(destination[i].rel, destination[i].is_dir),
        ),
    decreases destination.len(),
{
    let all = extras(source, destination);
    let rest = extras(source, destination.drop_last());
    let a = Act::Delete(destination[i].rel, destination[i].is_dir);
    if i < destination.len() - 1 {
        lemma_extras_covers(source, destination.drop_last(), i);
        let j = choose|j: int| 0 <= j < rest.len() && rest[j] == a;
        assert(all[j] == a);
    } else {
        assert(all[rest.len() as int] == a);
    }
}

proof fn lemma_from_source_distinct(
    source: Seq<Entry>,
    destination: Seq<Entry>,
    digests: Seq<DigestPair>,
)
    requires
        keys_unique(source),
    ensures
        all_distinct(from_source(source, destination, digests)),
    decreases source.len(),
{
    if source.len() > 0 {
        let t = source.drop_last();
        let all = from_source(source, destination, digests);
        let rest = from_source(t, destination, digests);
        let last = actions_at(source.last(), destination, digests);
        assert(keys_unique(t)) by {
            assert forall|i: int, j: int|
                #![trigger t[i], t[j]]
                0 <= i < j < t.len() implies key(t[i]) != key(t[j]) by {
                assert(t[i] == source[i] && t[j] == source[j]);
            }
        }
        lemma_from_source_distinct(t, destination, digests);
        assert forall|i: int, j: int|
            #![trigger all[i], all[j]]
            0 <= i < j < all.len() implies phase_of(all[i]) != phase_of(all[j]) || components(
            all[i].rel(),
        ) != components(all[j].rel()) by {
            if j < rest.len() {
                assert(all[i] == rest[i] && all[j] == rest[j]);
            } else if i < rest.len() {
                lemma_from_source_member(t, destination, digests, i);
                let k = choose|k: int|
                    0 <= k < t.len() && actions_at(#[trigger] t[k], destination, digests).contains(
                        rest[i],
                    );
                assert(t[k] == source[k]);
                assert(key(source[k]) != key(source[source.len() - 1]));
                assert(all[j] == last[j - rest.len()]);
            } else {
                assert(all[i] == last[i - rest.len()] && all[j] == last[j - rest.len()]);
            }
        }
    }
}

proof fn lemma_extras_distinct(source: Seq<Entry>, destination: Seq<Entry>)
    requires
        keys_unique(destination),
    ensures
        all_distinct(extras(source, destination)),
    decreases destination.len(),
{
    if destination.len() > 0 {
        let t = destination.drop_last();
        let all = extras(source, destination);
        let rest = extras(source, t);
        assert(keys_unique(t)) by {
            assert forall|i: int, j: int|
                #![trigger t[i], t[j]]
                0 <= i < j < t.len() implies key(t[i]) != key(t[j]) by {
                assert(t[i] == destination[i] && t[j] == destination[j]);
            }
        }
        lemma_extras_distinct(source, t);
        assert forall|i: int, j: int|
            #![trigger all[i], all[j]]
            0 <= i < j < all.len() implies phase_of(all[i]) != phase_of(all[j]) || components(
            all[i].rel(),
        ) != components(all[j].rel()) by {
            assert(all[i] == rest[i]);
            if j < rest.len() {
                assert(all[j] == rest[j]);
            } else {
                lemma_extras_member(source, t, i);
                let k = choose|k: int|
                    #![trigger t[k]]
                    0 <= k < t.len() && lookup(source, key(t[k])) is None && rest[i]
                        == Act::Delete(t[k].rel, t[k].is_dir);
                assert(t[k] == destination[k]);
                assert(key(destination[k]) != key(destination[destination.len() - 1]));
            }
        }
    }
}

proof fn lemma_planned_distinct(
    source: Seq<Entry>,
    destination: Seq<Entry>,
    digests: Seq<DigestPair>,
    delete_extras: bool,
)
    requires
        keys_unique(source),
        keys_unique(destination),
    ensures
        all_distinct(planned(source, destination, digests, delete_extras)),
{
    let a = from_source(source, destination, digests);
    let b = extras(source, destination);
    let all = planned(source, destination, digests, delete_extras);
    lemma_from_source_distinct(source, destination, digests);
    lemma_extras_distinct(source, destination);
    assert forall|i: int, j: int|
        #![trigger all[i], all[j]]
        0 <= i < j < all.len() implies phase_of(all[i]) != phase_of(all[j]) || components(
        all[i].rel(),
    ) != components(all[j].rel()) by {
        if j < a.len() {
            assert(all[i] == a[i] && all[j] == a[j]);
        } else if i < a.len() {
            assert(all[i] == a[i] && all[j] == b[j - a.len()]);
            lemma_from_source_member(source, destination, digests, i);
            lemma_extras_member(source, destination, j - a.len());
            let k = choose|k: int|
                0 <= k < source.len() && actions_at(
                    #[trigger] source[k],
                    destination,
                    digests,
                ).contains(a[i]);
            let d = b[j - a.len()];
            lemma_position(source, components(d.rel()));
            assert(components(a[i].rel()) == key(source[k]));
        } else {
            assert(all[i] == b[i - a.len()] && all[j] == b[j - a.len()]);
        }
    }
}

// --- Diff ------------------------------------------------------------------

fn find_verdict(digests: &Vec<DigestPair>, rel: &PathBuf) -> (res: Option<bool>)
    ensures
        res == verdict(digests@, components(rel@)),
{
    let mut i: usize = digests.len();
    assert(digests@.take(i as int) =~= digests@);
    while i > 0
        invariant
            i <= digests@.len(),
            verdict(digests@, components(rel@)) == verdict(
                digests@.take(i as int),
                components(rel@),
            ),
        decreases i,
    {
        i -= 1;
        let d = &digests[i];
        assert(digests@.take(i + 1).drop_last() =~= digests@.take(i as int));
        assert(digests@.take(i + 1).last() == digests@[i as int]);
        if d.rel_path.same(rel) {
            return Some(!d.source.same(&d.destination));
        }
    }
    None
}

/// The source paths whose contents have to be hashed before the scans can be
/// compared.
pub open spec fn contested_paths(source: Seq<Entry>, destination: Seq<Entry>) -> Seq<Seq<u8>>
    decreases source.len(),
{
    if source.len() == 0 {
        seq![]
    } else {
        let e = source.last();
        let rest = contested_paths(source.drop_last(), destination);
        if is_contested(e, lookup(destination, key(e))) {
            rest.push(e.rel)
        } else {
            rest
        }
    }
}

/// The paths that are files of the same size on both sides: what tells them
/// apart is a hash of their contents.
pub fn contested(source: &Scan, destination: &Scan) -> (res: Vec<PathBuf>)
    requires
        destination.wf(),
    ensures
        res@.map_values(|p: PathBuf| p@) == contested_paths(source@, destination@),
{
    let mut out: Vec<PathBuf> = Vec::new();
    for i in 0..source.entries.len()
        invariant
            destination.wf(),
            out@.map_values(|p: PathBuf| p@) == contested_paths(
                source@.take(i as int),
                destination@,
            ),
    {
        let src = &source.entries[i];
        let ghost before = out@.map_values(|p: PathBuf| p@);
        proof {
            assert(source@.take(i + 1).drop_last() =~= source@.take(i as int));
            assert(source@.take(i + 1).last() == src@);
        }
        if !src.is_dir {
            if let Some(d) = destination.get(&src.rel_path) {
                if !d.is_dir && d.size == src.size {
                    out.push(src.rel_path.clone());
                    assert(out@.map_values(|p: PathBuf| p@) =~= before.push(src.rel_path@));
                }
            }
        }
    }
    assert(source@.take(source@.len() as int) =~= source@);
    out
}

/// Add the actions for one source entry.
fn push_actions(actions: &mut Vec<SyncAction>, src: &FileEntry, dst: Option<&FileEntry>, differs: bool)
    ensures
        acts(final(actions)@) == acts(old(actions)@) + actions_for(
            src@,
            match dst {
                Some(d) => Some(d@),
                None => None,
            },
            differs,
        ),
{
    let ghost before = acts(actions@);
    match dst {
        None => {
            if src.is_dir {
                actions.push(SyncAction::CreateDir { rel_path: src.rel_path.clone() });
            } else {
                actions.push(SyncAction::Copy { rel_path: src.rel_path.clone(), size: src.size });
            }
        },
        Some(d) => {
            if src.is_dir && d.is_dir {
            } else if src.is_dir {
                // A file sits where the source has a directory.
                actions.push(SyncAction::Delete { rel_path: src.rel_path.clone(), is_dir: false });
                actions.push(SyncAction::CreateDir { rel_path: src.rel_path.clone() });
            } else if d.is_dir {
                // A directory sits where the source has a file.
                actions.push(SyncAction::Delete { rel_path: src.rel_path.clone(), is_dir: true });
                actions.push(
                    SyncAction::Overwrite { rel_path: src.rel_path.clone(), size: src.size },
                );
            } else if d.size != src.size || differs {
                actions.push(
                    SyncAction::Overwrite { rel_path: src.rel_path.clone(), size: src.size },
                );
            }
        },
    }
    assert(acts(actions@) =~= before + actions_for(
        src@,
        match dst {
            Some(d) => Some(d@),
            None => None,
        },
        differs,
    ));
}

proof fn lemma_first_unhashed_take(
    source: Seq<Entry>,
    destination: Seq<Entry>,
    digests: Seq<DigestPair>,
    i: int,
)
    requires
        0 <= i <= source.len(),
        first_unhashed(source.take(i), destination, digests) is Some,
    ensures
        first_unhashed(source, destination, digests) == first_unhashed(
            source.take(i),
            destination,
            digests,
        ),
    decreases source.len(),
{
    if i == source.len() {
        assert(source.take(i) =~= source);
    } else {
        assert(source.drop_last().take(i) =~= source.take(i));
        lemma_first_unhashed_take(source.drop_last(), destination, digests, i);
    }
}

/// Diff `source` against one `destination`, producing an apply-ordered [`Plan`].
///
/// `digests` holds the content hashes of the [`contested`] files; `delete_extras`
/// controls whether what only the destination has becomes `Delete` actions.
pub fn diff(
    source: &Scan,
    destination: &Scan,
    digests: &Vec<DigestPair>,
    delete_extras: bool,
) -> (res: Result<Plan, DiffError>)
    requires
        source.wf(),
        destination.wf(),
        file_bytes(source@) <= u64::MAX,
    ensures
        match res {
            Ok(plan) => {
                let wanted = planned(source@, destination@, digests@, delete_extras);
                &&& first_unhashed(source@, destination@, digests@) is None
                &&& plan.acts().len() == wanted.len()
                &&& apply_ordered(plan.acts())
                &&& forall|a: Act| #[trigger] plan.acts().contains(a) <==> wanted.contains(a)
                &&& tallies(plan.stats, wanted)
            },
            Err(DiffError::Unhashed(rel)) => first_unhashed(source@, destination@, digests@)
                == Some(rel@),
        },
{
    let mut actions: Vec<SyncAction> = Vec::new();
    assert(acts(actions@) =~= seq![]);
    // The source drives copies, directory creations and overwrites.
    for i in 0..source.entries.len()
        invariant
            source.wf(),
            destination.wf(),
            acts(actions@) == from_source(source@.take(i as int), destination@, digests@),
            first_unhashed(source@.take(i as int), destination@, digests@) is None,
    {
        let src = &source.entries[i];
        proof {
            assert(source@.take(i + 1).drop_last() =~= source@.take(i as int));
            assert(source@.take(i + 1).last() == src@);
        }
        let dst = destination.get(&src.rel_path);
        let verdict = find_verdict(digests, &src.rel_path);
        let contested = match dst {
            Some(d) => !src.is_dir && !d.is_dir && d.size == src.size,
            None => false,
        };
        if contested && verdict.is_none() {
            proof {
                lemma_first_unhashed_take(source@, destination@, digests@, i + 1);
            }
            return Err(DiffError::Unhashed(src.rel_path.clone()));
        }
        let differs = match verdict {
            Some(b) => b,
            None => false,
        };
        push_actions(&mut actions, src, dst, differs);
    }
    assert(source@.take(source@.len() as int) =~= source@);
    // Extras present in the destination but not the source.
    let ghost driven = acts(actions@);
    if delete_extras {
        assert(driven + extras(source@, destination@.take(0)) =~= driven);
        for i in 0..destination.entries.len()
            invariant
                source.wf(),
                acts(actions@) == driven + extras(source@, destination@.take(i as int)),
        {
            let d = &destination.entries[i];
            proof {
                assert(destination@.take(i + 1).drop_last() =~= destination@.take(i as int));
                assert(destination@.take(i + 1).last() == d@);
            }
            if !source.contains_key(&d.rel_path) {
                let a = SyncAction::Delete { rel_path: d.rel_path.clone(), is_dir: d.is_dir };
                proof {
                    lemma_acts_push(actions@, a);
                }
                actions.push(a);
                assert(acts(actions@) =~= driven + extras(source@, destination@.take(i + 1)));
            }
        }
        assert(destination@.take(destination@.len() as int) =~= destination@);
    }
    proof {
        assert(acts(actions@) =~= planned(source@, destination@, digests@, delete_extras));
        lemma_planned_distinct(source@, destination@, digests@, delete_extras);
        lemma_from_source_bytes(source@, destination@, digests@);
        lemma_extras_bytes(source@, destination@);
        lemma_total_bytes_concat(driven, extras(source@, destination@));
    }
    let stats = stats_of(&actions);
    let actions = sort_actions(&actions);
    Ok(Plan { actions, stats })
}

// --- Laws ------------------------------------------------------------------

/// Whether an action is the deletion of something that only the destination has.
pub open spec fn is_extra(source: Seq<Entry>, destination: Seq<Entry>, a: Act) -> bool {
    exists|i: int|
        #![trigger destination[i]]
        0 <= i < destination.len() && lookup(source, key(destination[i])) is None && a
            == Act::Delete(destination[i].rel, destination[i].is_dir)
}

/// A list of actions without the deletions of what only the destination has.
pub open spec fn without_extras(
    source: Seq<Entry>,
    destination: Seq<Entry>,
    acts: Seq<Act>,
) -> Seq<Act>
    decreases acts.len(),
{
    if acts.len() == 0 {
        acts
    } else {
        let rest = without_extras(source, destination, acts.drop_last());
        if is_extra(source, destination, acts.last()) {
            rest
        } else {
            rest.push(acts.last())
        }
    }
}

proof fn lemma_precedes_strict(a: Act, b: Act)
    requires
        precedes(a, b),
    ensures
        !precedes(b, a),
        a != b,
{
    lemma_key_order(components(a.rel()), components(b.rel()));
}

proof fn lemma_ordered_distinct(p: Seq<Act>)
    requires
        apply_ordered(p),
    ensures
        p.no_duplicates(),
{
    assert forall|i: int, j: int| 0 <= i < p.len() && 0 <= j < p.len() && i != j implies p[i]
        != p[j] by {
        if i < j {
            lemma_precedes_strict(p[i], p[j]);
        } else {
            lemma_precedes_strict(p[j], p[i]);
        }
    }
}

/// The order in which actions are applied is fixed by what they are.
pub proof fn lemma_ordered_unique(p: Seq<Act>, q: Seq<Act>)
    requires
        apply_ordered(p),
        apply_ordered(q),
        forall|a: Act| #[trigger] p.contains(a) <==> q.contains(a),
    ensures
        p == q,
    decreases p.len(),
{
    if p.len() == 0 {
        if q.len() > 0 {
            assert(q.contains(q[0]));
            assert(p.contains(q[0]));
        }
        assert(p =~= q);
    } else {
        let x = p.last();
        assert(p.contains(x));
        let j = choose|j: int| 0 <= j < q.len() && q[j] == x;
        let y = q.last();
        assert(q.contains(y));
        assert(p.contains(y));
        let i = choose|i: int| 0 <= i < p.len() && p[i] == y;
        if x != y {
            assert(precedes(q[j], q[q.len() - 1]));
            assert(precedes(p[i], p[p.len() - 1]));
            lemma_precedes_strict(x, y);
        }
        let r = p.drop_last();
        let t = q.drop_last();
        lemma_ordered_distinct(p);
        lemma_ordered_distinct(q);
        assert forall|a: Act| #[trigger] r.contains(a) <==> t.contains(a) by {
            if r.contains(a) {
                let k = choose|k: int| 0 <= k < r.len() && r[k] == a;
                assert(p[k] == a && a != x);
                assert(p.contains(a));
                let m = choose|m: int| 0 <= m < q.len() && q[m] == a;
                assert(t[m] == a);
            }
            if t.contains(a) {
                let k = choose|k: int| 0 <= k < t.len() && t[k] == a;
                assert(q[k] == a && a != y);
                assert(q.contains(a));
                assert(p.contains(a));
                let m = choose|m: int| 0 <= m < p.len() && p[m] == a;
                assert(r[m] == a);
            }
        }
        assert forall|i: int, j: int|
            #![trigger r[i], r[j]]
            0 <= i < j < r.len() implies precedes(r[i], r[j]) by {
            assert(r[i] == p[i] && r[j] == p[j]);
        }
        assert forall|i: int, j: int|
            #![trigger t[i], t[j]]
            0 <= i < j < t.len() implies precedes(t[i], t[j]) by {
            assert(t[i] == q[i] && t[j] == q[j]);
        }
        lemma_ordered_unique(r, t);
        assert(p =~= r.push(x));
        assert(q =~= t.push(x));
    }
}

proof fn lemma_without_extras(s: Seq<Entry>, d: Seq<Entry>, p: Seq<Act>)
    requires
        apply_ordered(p),
    ensures
        apply_ordered(without_extras(s, d, p)),
        forall|a: Act| #[trigger]
            without_extras(s, d, p).contains(a) <==> p.contains(a) && !is_extra(s, d, a),
    decreases p.len(),
{
    if p.len() > 0 {
        let r = p.drop_last();
        let x = p.last();
        assert forall|i: int, j: int|
            #![trigger r[i], r[j]]
            0 <= i < j < r.len() implies precedes(r[i], r[j]) by {
            assert(r[i] == p[i] && r[j] == p[j]);
        }
        lemma_without_extras(s, d, r);
        let f = without_extras(s, d, r);
        let g = without_extras(s, d, p);
        assert forall|a: Act| #[trigger] p.contains(a) <==> r.contains(a) || a == x by {
            if p.contains(a) {
                let k = choose|k: int| 0 <= k < p.len() && p[k] == a;
                if k < r.len() {
                    assert(r[k] == a);
                }
            }
            if r.contains(a) {
                let k = choose|k: int| 0 <= k < r.len() && r[k] == a;
                assert(p[k] == a);
            }
            assert(p[p.len() - 1] == x);
        }
        if !is_extra(s, d, x) {
            assert forall|i: int, j: int|
                #![trigger g[i], g[j]]
                0 <= i < j < g.len() implies precedes(g[i], g[j]) by {
                assert(g[i] == f[i]);
                if j == f.len() {
                    assert(f.contains(f[i]));
                    assert(r.contains(f[i]));
                    let k = choose|k: int| 0 <= k < r.len() && r[k] == f[i];
                    assert(precedes(p[k], p[p.len() - 1]));
                } else {
                    assert(g[j] == f[j]);
                }
            }
            assert forall|a: Act| #[trigger] g.contains(a) <==> f.contains(a) || a == x by {
                if g.contains(a) {
                    let k = choose|k: int| 0 <= k < g.len() && g[k] == a;
                    if k < f.len() {
                        assert(f[k] == a);
                    }
                }
                if f.contains(a) {
                    let k = choose|k: int| 0 <= k < f.len() && f[k] == a;
                    assert(g[k] == a);
                }
                assert(g[f.len() as int] == x);
            }
        }
    }
}

proof fn lemma_is_extra(s: Seq<Entry>, d: Seq<Entry>, a: Act)
    ensures
        extras(s, d).contains(a) <==> is_extra(s, d, a),
{
    let e = extras(s, d);
    if e.contains(a) {
        let j = choose|j: int| 0 <= j < e.len() && e[j] == a;
        lemma_extras_member(s, d, j);
    }
    if is_extra(s, d, a) {
        let i = choose|i: int|
            #![trigger d[i]]
            0 <= i < d.len() && lookup(s, key(d[i])) is None && a == Act::Delete(
                d[i].rel,
                d[i].is_dir,
            );
        lemma_extras_covers(s, d, i);
    }
}

proof fn lemma_all_distinct(s: Seq<Act>)
    requires
        all_distinct(s),
    ensures
        s.no_duplicates(),
{
    assert forall|i: int, j: int| 0 <= i < s.len() && 0 <= j < s.len() && i != j implies s[i]
        != s[j] by {
        if i < j {
            assert(s[i] != s[j]);
        } else {
            assert(s[j] != s[i]);
        }
    }
}

/// Asking to delete extras adds to a plan exactly the deletions of what only the
/// destination has, each once, and keeps the order of all else.
///
/// `kept` is the plan without, and `all` the plan with the deletions.
pub proof fn law_deleting_extras_only_adds_deletions(
    s: Seq<Entry>,
    d: Seq<Entry>,
    digests: Seq<DigestPair>,
    kept: Seq<Act>,
    all: Seq<Act>,
)
    requires
        keys_unique(s),
        keys_unique(d),
        apply_ordered(kept),
        apply_ordered(all),
        forall|a: Act| #[trigger] kept.contains(a) <==> planned(s, d, digests, false).contains(a),
        forall|a: Act| #[trigger] all.contains(a) <==> planned(s, d, digests, true).contains(a),
    ensures
        without_extras(s, d, all) == kept,
        all.to_multiset() == kept.to_multiset().add(extras(s, d).to_multiset()),
        forall|a: Act| #[trigger] extras(s, d).contains(a) <==> is_extra(s, d, a),
        extras(s, d).no_duplicates(),
{
    let driven = from_source(s, d, digests);
    let e = extras(s, d);
    let both = planned(s, d, digests, true);
    assert(planned(s, d, digests, false) =~= driven);
    assert forall|a: Act| #[trigger] e.contains(a) <==> is_extra(s, d, a) by {
        lemma_is_extra(s, d, a);
    }
    lemma_planned_distinct(s, d, digests, true);
    lemma_extras_distinct(s, d);
    lemma_all_distinct(e);
    assert forall|a: Act| both.contains(a) <==> #[trigger] driven.contains(a) || e.contains(a) by {
        if driven.contains(a) {
            let k = choose|k: int| 0 <= k < driven.len() && driven[k] == a;
            assert(both[k] == a);
        }
        if e.contains(a) {
            let k = choose|k: int| 0 <= k < e.len() && e[k] == a;
            assert(both[driven.len() + k] == a);
        }
        if both.contains(a) {
            let k = choose|k: int| 0 <= k < both.len() && both[k] == a;
            if k < driven.len() {
                assert(driven[k] == a);
            } else {
                assert(e[k - driven.len()] == a);
            }
        }
    }
    assert forall|a: Act| #[trigger] driven.contains(a) implies !e.contains(a) by {
        if e.contains(a) {
            let k = choose|k: int| 0 <= k < driven.len() && driven[k] == a;
            let m = choose|m: int| 0 <= m < e.len() && e[m] == a;
            assert(both[k] == a && both[driven.len() + m] == a);
        }
    }
    lemma_without_extras(s, d, all);
    let f = without_extras(s, d, all);
    assert forall|a: Act| #[trigger] f.contains(a) <==> kept.contains(a) by {
        assert(all.contains(a) <==> both.contains(a));
        assert(both.contains(a) <==> driven.contains(a) || e.contains(a));
        assert(e.contains(a) <==> is_extra(s, d, a));
    }
    lemma_ordered_unique(f, kept);
    lemma_ordered_distinct(kept);
    lemma_ordered_distinct(all);
    kept.to_multiset_ensures();
    all.to_multiset_ensures();
    e.to_multiset_ensures();
    kept.lemma_multiset_has_no_duplicates();
    all.lemma_multiset_has_no_duplicates();
    e.lemma_multiset_has_no_duplicates();
    assert forall|a: Act| #[trigger] all.to_multiset().count(a) == kept.to_multiset().count(a)
        + e.to_multiset().count(a) by {
        assert(all.contains(a) <==> both.contains(a));
        assert(kept.contains(a) <==> driven.contains(a));
        assert(both.contains(a) <==> driven.contains(a) || e.contains(a));
        assert(all.contains(a) <==> all.to_multiset().count(a) > 0);
        assert(kept.contains(a) <==> kept.to_multiset().count(a) > 0);
        assert(e.contains(a) <==> e.to_multiset().count(a) > 0);
    }
    assert(all.to_multiset() =~= kept.to_multiset().add(e.to_multiset()));
}

/// The paths whose contents have to be compared are those of the files that both sides
/// have with the same size, and no others.
pub proof fn law_contested_files_are_all_found(source: Seq<Entry>, destination: Seq<Entry>)
    ensures
        forall|i: int|
            #![trigger source[i]]
            0 <= i < source.len() && !source[i].is_dir && (lookup(destination, key(source[i]))
                matches Some(d) && !d.is_dir && d.size == source[i].size) ==> contested_paths(
                source,
                destination,
            ).contains(source[i].rel),
        forall|p: Seq<u8>| #[trigger]
            contested_paths(source, destination).contains(p) ==> exists|i: int|
                #![trigger source[i]]
                0 <= i < source.len() && source[i].rel == p && !source[i].is_dir && (lookup(
                    destination,
                    key(source[i]),
                ) matches Some(d) && !d.is_dir && d.size == source[i].size),
    decreases source.len(),
{
    if source.len() > 0 {
        let front = source.drop_last();
        let e = source.last();
        law_contested_files_are_all_found(front, destination);
        let rest = contested_paths(front, destination);
        let all = contested_paths(source, destination);
        assert(source[source.len() - 1] == e);
        assert forall|p: Seq<u8>| #[trigger] rest.contains(p) implies all.contains(p) by {
            let k = choose|k: int| 0 <= k < rest.len() && rest[k] == p;
            assert(all[k] == p);
        }
        assert forall|i: int|
            #![trigger source[i]]
            0 <= i < source.len() && !source[i].is_dir && (lookup(destination, key(source[i]))
                matches Some(d) && !d.is_dir && d.size == source[i].size) implies all.contains(
            source[i].rel,
        ) by {
            if i < front.len() {
                assert(front[i] == source[i]);
                assert(rest.contains(source[i].rel));
            } else {
                assert(all[rest.len() as int] == e.rel);
            }
        }
        assert forall|p: Seq<u8>| #[trigger] all.contains(p) implies exists|i: int|
            #![trigger source[i]]
            0 <= i < source.len() && source[i].rel == p && !source[i].is_dir && (lookup(
                destination,
                key(source[i]),
            ) matches Some(d) && !d.is_dir && d.size == source[i].size) by {
            let k = choose|k: int| 0 <= k < all.len() && all[k] == p;
            if k < rest.len() {
                assert(rest[k] == p);
                assert(rest.contains(p));
                let i = choose|i: int|
                    #![trigger front[i]]
                    0 <= i < front.len() && front[i].rel == p && !front[i].is_dir && (lookup(
                        destination,
                        key(front[i]),
                    ) matches Some(d) && !d.is_dir && d.size == front[i].size);
                assert(source[i] == front[i]);
            } else {
                assert(source[source.len() - 1].rel == p);
            }
        }
    }
}

/// Whether a list has digests for a location.
pub open spec fn has_digests(digests: Seq<DigestPair>, k: Seq<Seq<u8>>) -> bool {
    exists|n: int| 0 <= n < digests.len() && components((#[trigger] digests[n]).rel_path@) == k
}

/// Digests settle a location where there are some for it: it differs exactly where they
/// do.
pub proof fn law_digests_settle(digests: Seq<DigestPair>, k: Seq<Seq<u8>>)
    ensures
        verdict(digests, k) is Some <==> has_digests(digests, k),
        verdict(digests, k) matches Some(differs) ==> exists|n: int|
            0 <= n < digests.len() && components((#[trigger] digests[n]).rel_path@) == k && differs
                == (digests[n].source@ != digests[n].destination@),
    decreases digests.len(),
{
    if digests.len() > 0 {
        let front = digests.drop_last();
        law_digests_settle(front, k);
        assert(digests[digests.len() - 1] == digests.last());
        if components(digests.last().rel_path@) != k {
            if has_digests(front, k) {
                let n = choose|n: int|
                    0 <= n < front.len() && components((#[trigger] front[n]).rel_path@) == k;
                assert(digests[n] == front[n]);
            }
            if has_digests(digests, k) {
                let n = choose|n: int|
                    0 <= n < digests.len() && components((#[trigger] digests[n]).rel_path@) == k;
                assert(front[n] == digests[n]);
            }
            if verdict(front, k) is Some {
                let n = choose|n: int|
                    0 <= n < front.len() && components((#[trigger] front[n]).rel_path@) == k
                        && verdict(front, k) == Some(front[n].source@ != front[n].destination@);
                assert(digests[n] == front[n]);
            }
        }
    }
}

/// A comparison succeeds where there are digests for every contested file, with or without
/// deletions; and only where there are.
pub proof fn law_hashed_files_can_be_planned(
    source: Seq<Entry>,
    destination: Seq<Entry>,
    digests: Seq<DigestPair>,
)
    ensures
        first_unhashed(source, destination, digests) is None <==> forall|i: int|
            #![trigger source[i]]
            0 <= i < source.len() && !source[i].is_dir && (lookup(destination, key(source[i]))
                matches Some(d) && !d.is_dir && d.size == source[i].size) ==> has_digests(
                digests,
                key(source[i]),
            ),
    decreases source.len(),
{
    if source.len() > 0 {
        let front = source.drop_last();
        let e = source.last();
        law_hashed_files_can_be_planned(front, destination, digests);
        law_digests_settle(digests, key(e));
        assert(source[source.len() - 1] == e);
        if first_unhashed(front, destination, digests) is Some {
            let i = choose|i: int|
                #![trigger front[i]]
                0 <= i < front.len() && !front[i].is_dir && (lookup(destination, key(front[i]))
                    matches Some(d) && !d.is_dir && d.size == front[i].size) && !has_digests(
                    digests,
                    key(front[i]),
                );
            assert(source[i] == front[i]);
        } else {
            assert forall|i: int|
                #![trigger source[i]]
                0 <= i < source.len() - 1 && !source[i].is_dir && (lookup(
                    destination,
                    key(source[i]),
                ) matches Some(d) && !d.is_dir && d.size == source[i].size) implies has_digests(
                digests,
                key(source[i]),
            ) by {
                assert(front[i] == source[i]);
            }
        }
    }
}

/// The totals of a plan count its actions by kind, each once, and add up the sizes of what
/// is copied and overwritten.
pub proof fn law_totals_count_the_actions(stats: Stats, s: Seq<Act>)
    requires
        tallies(stats, s),
    ensures
        stats.create_dirs == s.filter(|a: Act| a is CreateDir).len(),
        stats.copies == s.filter(|a: Act| a is Copy).len(),
        stats.overwrites == s.filter(|a: Act| a is Overwrite).len(),
        stats.deletes == s.filter(|a: Act| a is Delete).len(),
        stats.create_dirs + stats.copies + stats.overwrites + stats.deletes == s.len(),
        stats.bytes == s.fold_left(
            0,
            |n: int, a: Act|
                match a {
                    Act::Copy(_, size) => n + size,
                    Act::Overwrite(_, size) => n + size,
                    _ => n,
                },
        ),
{
    lemma_count_is_filter(s, |a: Act| a is CreateDir);
    lemma_count_is_filter(s, |a: Act| a is Copy);
    lemma_count_is_filter(s, |a: Act| a is Overwrite);
    lemma_count_is_filter(s, |a: Act| a is Delete);
    lemma_kinds_add_up(s);
    lemma_bytes_fold(s);
}

proof fn lemma_count_is_filter(s: Seq<Act>, p: spec_fn(Act) -> bool)
    ensures
        count(s, p) == s.filter(p).len(),
    decreases s.len(),
{
    reveal(Seq::filter);
    if s.len() > 0 {
        lemma_count_is_filter(s.drop_last(), p);
    }
}

proof fn lemma_kinds_add_up(s: Seq<Act>)
    ensures
        count(s, |a: Act| a is CreateDir) + count(s, |a: Act| a is Copy) + count(
            s,
            |a: Act| a is Overwrite,
        ) + count(s, |a: Act| a is Delete) == s.len(),
    decreases s.len(),
{
    if s.len() > 0 {
        lemma_kinds_add_up(s.drop_last());
    }
}

proof fn lemma_bytes_fold(s: Seq<Act>)
    ensures
        total_bytes(s) == s.fold_left(
            0,
            |n: int, a: Act|
                match a {
                    Act::Copy(_, size) => n + size,
                    Act::Overwrite(_, size) => n + size,
                    _ => n,
                },
        ),
    decreases s.len(),
{
    if s.len() > 0 {
        lemma_bytes_fold(s.drop_last());
    }
}

/// The order of a plan: all deletions come first, the deepest before those around them;
/// then directories, each before what it holds; then files. What is left open goes by
/// path.
pub proof fn law_plans_are_in_order(s: Seq<Act>, i: int, j: int)
    requires
        apply_ordered(s),
        0 <= i < j < s.len(),
    ensures
        s[j] is Delete ==> s[i] is Delete,
        s[j] is CreateDir ==> s[i] is Delete || s[i] is CreateDir,
        s[i] is Delete && s[j] is Delete ==> components(s[i].rel()).len() >= components(
            s[j].rel(),
        ).len(),
        s[i] is CreateDir && s[j] is CreateDir ==> components(s[i].rel()).len() <= components(
            s[j].rel(),
        ).len(),
        (s[i] is Copy || s[i] is Overwrite) && (s[j] is Copy || s[j] is Overwrite) ==> components(
            s[i].rel(),
        ).len() <= components(s[j].rel()).len(),
        components(s[i].rel()).len() == components(s[j].rel()).len() && (s[i] is Delete <==> s[j]
            is Delete) && (s[i] is CreateDir <==> s[j] is CreateDir) ==> path_order(
            s[i].rel(),
            s[j].rel(),
        ) == Order::Less,
{
    assert(precedes(s[i], s[j]));
}

} // verus!
