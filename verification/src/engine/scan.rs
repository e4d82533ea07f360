//! Collect the entries of a folder tree into a [`Scan`], keyed by path relative to
//! the root.

use std::time::SystemTime;
use vstd::prelude::*;

use crate::engine::{
    inserted, key, keys_unique, lemma_inserted, lemma_position, position, Entry, FileEntry, Scan,
};
use crate::path::{
    body_components, climbs, components, is_rooted, is_within, joined, law_join_appends,
    law_stripped_components, law_stripped_joins_back, lies_inside, same_path, stripped, PathBuf,
};

verus! {

/// Something met while walking a folder tree.
#[derive(Debug)]
pub struct Found {
    /// Where it was met, root and all.
    pub path: PathBuf,
    pub is_symlink: bool,
    pub is_dir: bool,
    /// Whether it is a regular file.
    pub is_file: bool,
    /// The length that the file system reports.
    pub len: u64,
    pub mtime: SystemTime,
}

/// Why what was met could not be recorded.
#[derive(Debug, PartialEq, Eq)]
pub enum ScanError {
    /// The path does not lie below the root.
    NotBelowRoot(PathBuf),
}

/// The entry that stands for something met at `rel`.
pub open spec fn entry_for(rel: Seq<u8>, f: Found) -> Entry {
    Entry {
        rel,
        size: if f.is_dir {
            0
        } else {
            f.len
        },
        mtime: f.mtime,
        is_dir: f.is_dir,
    }
}

/// The first thing met that is no link and does not lie below the root.
pub open spec fn first_stray(root: Seq<u8>, found: Seq<Found>) -> Option<Seq<u8>>
    decreases found.len(),
{
    if found.len() == 0 {
        None
    } else {
        match first_stray(root, found.drop_last()) {
            Some(p) => Some(p),
            None => if !found.last().is_symlink && !is_within(found.last().path@, root) {
                Some(found.last().path@)
            } else {
                None
            },
        }
    }
}

/// The entries for everything met below the root, links left out.
pub open spec fn scanned(root: Seq<u8>, found: Seq<Found>) -> Seq<Entry>
    decreases found.len(),
{
    if found.len() == 0 {
        Seq::empty()
    } else {
        let rest = scanned(root, found.drop_last());
        if found.last().is_symlink {
            rest
        } else {
            match stripped(found.last().path@, root) {
                Some(rel) => inserted(rest, entry_for(rel, found.last())),
                None => rest,
            }
        }
    }
}

/// What strays early on strays.
pub proof fn lemma_first_stray_take(root: Seq<u8>, found: Seq<Found>, i: int)
    requires
        0 <= i <= found.len(),
        first_stray(root, found.take(i)) is Some,
    ensures
        first_stray(root, found) == first_stray(root, found.take(i)),
    decreases found.len(),
{
    if i == found.len() {
        assert(found.take(i) =~= found);
    } else {
        assert(found.drop_last().take(i) =~= found.take(i));
        lemma_first_stray_take(root, found.drop_last(), i);
    }
}

/// Record what was met below `root`, each by its path relative to `root`.
///
/// Symlinks are skipped entirely: a link, to a file or a directory, is not
/// recorded, so a mirror never follows one out of the source tree and never makes
/// one in a destination.
pub fn scan(root: &PathBuf, found: &Vec<Found>) -> (res: Result<Scan, ScanError>)
    ensures
        match res {
            Ok(scan) => {
                &&& first_stray(root@, found@) is None
                &&& scan@ == scanned(root@, found@)
                &&& scan.wf()
            },
            Err(ScanError::NotBelowRoot(p)) => first_stray(root@, found@) == Some(p@),
        },
{
    let mut map = Scan::new();
    for i in 0..found.len()
        invariant
            map.wf(),
            map@ == scanned(root@, found@.take(i as int)),
            first_stray(root@, found@.take(i as int)) is None,
    {
        let f = &found[i];
        proof {
            assert(found@.take(i + 1).drop_last() =~= found@.take(i as int));
            assert(found@.take(i + 1).last() == found@[i as int]);
        }
        if !f.is_symlink {
            match f.path.strip_prefix(root) {
                Some(rel_path) => {
                    let size: u64 = if f.is_dir {
                        0
                    } else {
                        f.len
                    };
                    let entry = FileEntry { rel_path, size, mtime: f.mtime, is_dir: f.is_dir };
                    map.insert(entry);
                },
                None => {
                    proof {
                        lemma_first_stray_take(root@, found@, i + 1);
                    }
                    return Err(ScanError::NotBelowRoot(f.path.clone()));
                },
            }
        }
    }
    assert(found@.take(found@.len() as int) =~= found@);
    Ok(map)
}

// --- Laws ------------------------------------------------------------------

/// What was met, links left out.
pub open spec fn without_links(found: Seq<Found>) -> Seq<Found>
    decreases found.len(),
{
    if found.len() == 0 {
        found
    } else if found.last().is_symlink {
        without_links(found.drop_last())
    } else {
        without_links(found.drop_last()).push(found.last())
    }
}

/// Links make no difference to a scan: neither to what it records nor to whether it
/// succeeds.
pub proof fn law_links_are_not_scanned(root: Seq<u8>, found: Seq<Found>)
    ensures
        scanned(root, without_links(found)) == scanned(root, found),
        first_stray(root, without_links(found)) == first_stray(root, found),
    decreases found.len(),
{
    if found.len() > 0 {
        let rest = without_links(found.drop_last());
        law_links_are_not_scanned(root, found.drop_last());
        assert(rest.push(found.last()).drop_last() =~= rest);
    }
}

/// Whether everything met but links lies below the root.
pub open spec fn all_below(root: Seq<u8>, found: Seq<Found>) -> bool {
    forall|i: int|
        #![trigger found[i]]
        0 <= i < found.len() && !found[i].is_symlink ==> lies_inside(found[i].path@, root)
            && !same_path(found[i].path@, root)
}

/// Whether a path is relative and names something, neither opening with `.` nor going up.
pub open spec fn is_relative(p: Seq<u8>) -> bool {
    &&& !is_rooted(p)
    &&& !climbs(p)
    &&& components(p).len() > 0
    &&& body_components(p) == components(p)
}

/// The paths that a scan records are relative, name something and do not go up.
pub proof fn law_scanned_paths_are_relative(root: Seq<u8>, found: Seq<Found>)
    requires
        root.len() > 0,
        all_below(root, found),
    ensures
        forall|j: int|
            #![trigger scanned(root, found)[j]]
            0 <= j < scanned(root, found).len() ==> is_relative(scanned(root, found)[j].rel),
    decreases found.len(),
{
    if found.len() > 0 {
        let front = found.drop_last();
        let f = found.last();
        assert forall|i: int|
            #![trigger front[i]]
            0 <= i < front.len() && !front[i].is_symlink implies lies_inside(front[i].path@, root)
            && !same_path(front[i].path@, root) by {
            assert(front[i] == found[i]);
        }
        law_scanned_paths_are_relative(root, front);
        if !f.is_symlink {
            assert(found[found.len() - 1] == f);
            law_stripped_components(f.path@, root);
            let x = components(f.path@);
            let y = components(root);
            assert(x.subrange(0, y.len() as int) == y);
            if x.len() == y.len() {
                assert(x.subrange(0, y.len() as int) =~= x);
            }
            let e = entry_for(stripped(f.path@, root)->0, f);
            let rest = scanned(root, front);
            lemma_position(rest, key(e));
            assert(scanned(root, found) == inserted(rest, e));
            assert forall|j: int|
                #![trigger scanned(root, found)[j]]
                0 <= j < scanned(root, found).len() implies is_relative(
                scanned(root, found)[j].rel,
            ) by {
                if scanned(root, found)[j] != e {
                    assert(scanned(root, found)[j] == rest[j]);
                }
            }
        }
    }
}

/// Whether an entry records something met: at its place below the root, with its kind,
/// its time and, for a file, its length.
pub open spec fn records(e: Entry, f: Found, root: Seq<u8>) -> bool {
    &&& same_path(joined(root, e.rel), f.path@)
    &&& e.is_dir == f.is_dir
    &&& e.size == if f.is_dir {
        0
    } else {
        f.len
    }
    &&& e.mtime == f.mtime
}

/// Whether nothing but links was met later at the same place.
pub open spec fn is_latest(found: Seq<Found>, i: int) -> bool {
    forall|k: int|
        #![trigger found[k]]
        i < k < found.len() && !found[k].is_symlink ==> !same_path(found[k].path@, found[i].path@)
}

proof fn lemma_same_below(root: Seq<u8>, a: Seq<u8>, b: Seq<u8>)
    requires
        root.len() > 0,
        is_relative(a),
        is_relative(b),
    ensures
        same_path(joined(root, a), joined(root, b)) <==> components(a) == components(b),
{
    law_join_appends(root, a);
    law_join_appends(root, b);
    let r = components(root);
    let x = components(a);
    let y = components(b);
    if r + x == r + y {
        assert(x =~= (r + x).skip(r.len() as int));
        assert(y =~= (r + y).skip(r.len() as int));
    }
}

/// Whether a list of entries records each thing met that is no link.
pub open spec fn all_recorded(root: Seq<u8>, found: Seq<Found>, s: Seq<Entry>) -> bool {
    forall|i: int|
        #![trigger found[i]]
        0 <= i < found.len() && !found[i].is_symlink && is_latest(found, i) ==> exists|j: int|
            0 <= j < s.len() && records(#[trigger] s[j], found[i], root)
}

/// Whether an entry records something met that is no link.
pub open spec fn is_met(root: Seq<u8>, found: Seq<Found>, e: Entry) -> bool {
    exists|i: int|
        0 <= i < found.len() && !(#[trigger] found[i]).is_symlink && is_latest(found, i)
            && records(e, found[i], root)
}

/// Whether each entry of a list records something met that is no link.
pub open spec fn all_met(root: Seq<u8>, found: Seq<Found>, s: Seq<Entry>) -> bool {
    forall|j: int| #![trigger s[j]] 0 <= j < s.len() ==> is_met(root, found, s[j])
}

proof fn lemma_latest(found: Seq<Found>, i: int)
    requires
        0 <= i < found.len() - 1,
    ensures
        is_latest(found, i) <==> is_latest(found.drop_last(), i) && (found.last().is_symlink
            || !same_path(found.last().path@, found[i].path@)),
{
    let front = found.drop_last();
    let n = found.len() - 1;
    assert(front[i] == found[i]);
    assert(found[n] == found.last());
    if is_latest(found, i) {
        assert forall|k: int|
            #![trigger front[k]]
            i < k < front.len() && !front[k].is_symlink implies !same_path(
            front[k].path@,
            front[i].path@,
        ) by {
            assert(front[k] == found[k]);
        }
    }
    if is_latest(front, i) && (found.last().is_symlink || !same_path(
        found.last().path@,
        found[i].path@,
    )) {
        assert forall|k: int|
            #![trigger found[k]]
            i < k < found.len() && !found[k].is_symlink implies !same_path(
            found[k].path@,
            found[i].path@,
        ) by {
            if k < n {
                assert(front[k] == found[k]);
            }
        }
    }
}

proof fn lemma_link_recorded(root: Seq<u8>, found: Seq<Found>, s: Seq<Entry>)
    requires
        found.len() > 0,
        found.last().is_symlink,
        all_recorded(root, found.drop_last(), s),
        all_met(root, found.drop_last(), s),
    ensures
        all_recorded(root, found, s),
        all_met(root, found, s),
{
    let front = found.drop_last();
    assert forall|i: int|
        #![trigger found[i]]
        0 <= i < found.len() && !found[i].is_symlink && is_latest(found, i) implies exists|j: int|
        0 <= j < s.len() && records(#[trigger] s[j], found[i], root) by {
        assert(front[i] == found[i]);
        lemma_latest(found, i);
    }
    assert forall|j: int| #![trigger s[j]] 0 <= j < s.len() implies is_met(root, found, s[j]) by {
        let i = choose|i: int|
            0 <= i < front.len() && !(#[trigger] front[i]).is_symlink && is_latest(front, i)
                && records(s[j], front[i], root);
        assert(found[i] == front[i]);
        lemma_latest(found, i);
    }
}

/// Whether the paths of a list of entries are relative.
pub open spec fn rels_relative(s: Seq<Entry>) -> bool {
    forall|j: int| #![trigger s[j]] 0 <= j < s.len() ==> is_relative(s[j].rel)
}

proof fn lemma_insert_recorded(root: Seq<u8>, found: Seq<Found>, rest: Seq<Entry>, e: Entry)
    requires
        root.len() > 0,
        found.len() > 0,
        !found.last().is_symlink,
        records(e, found.last(), root),
        is_relative(e.rel),
        rels_relative(rest),
        all_recorded(root, found.drop_last(), rest),
    ensures
        all_recorded(root, found, inserted(rest, e)),
{
    let front = found.drop_last();
    let n = found.len() - 1;
    let all = inserted(rest, e);
    lemma_position(rest, key(e));
    let p = position(rest, key(e));
    let at = if p >= 0 {
        p
    } else {
        rest.len() as int
    };
    assert(all[at] == e);
    assert forall|i: int|
        #![trigger found[i]]
        0 <= i < found.len() && !found[i].is_symlink && is_latest(found, i) implies exists|j: int|
        0 <= j < all.len() && records(#[trigger] all[j], found[i], root) by {
        if i < n {
            assert(front[i] == found[i]);
            lemma_latest(found, i);
            let j = choose|j: int|
                0 <= j < rest.len() && records(#[trigger] rest[j], front[i], root);
            lemma_same_below(root, rest[j].rel, e.rel);
            assert(j != p);
            assert(all[j] == rest[j]);
        } else {
            assert(records(all[at], found[i], root));
        }
    }
}

proof fn lemma_insert_met(root: Seq<u8>, found: Seq<Found>, rest: Seq<Entry>, e: Entry)
    requires
        root.len() > 0,
        found.len() > 0,
        !found.last().is_symlink,
        records(e, found.last(), root),
        is_relative(e.rel),
        rels_relative(rest),
        keys_unique(rest),
        all_met(root, found.drop_last(), rest),
    ensures
        all_met(root, found, inserted(rest, e)),
{
    let front = found.drop_last();
    let f = found.last();
    let n = found.len() - 1;
    assert(found[n] == f);
    let all = inserted(rest, e);
    lemma_position(rest, key(e));
    let p = position(rest, key(e));
    let at = if p >= 0 {
        p
    } else {
        rest.len() as int
    };
    assert(all[at] == e);
    assert(is_latest(found, n));
    assert forall|j: int| #![trigger all[j]] 0 <= j < all.len() implies is_met(
        root,
        found,
        all[j],
    ) by {
        if j == at {
            assert(records(all[j], found[n], root));
        } else {
            assert(all[j] == rest[j]);
            let i = choose|i: int|
                0 <= i < front.len() && !(#[trigger] front[i]).is_symlink && is_latest(front, i)
                    && records(rest[j], front[i], root);
            assert(found[i] == front[i]);
            lemma_same_below(root, rest[j].rel, e.rel);
            if same_path(f.path@, found[i].path@) {
                assert(key(rest[j]) == key(e));
                assert(p >= 0);
                if j < p {
                    assert(key(rest[j]) != key(rest[p]));
                } else {
                    assert(key(rest[p]) != key(rest[j]));
                }
            }
            lemma_latest(found, i);
        }
    }
}

/// A scan is complete: everything met but links is recorded, whatever its size, where it
/// lies, as what it is; nothing else is; and no place is recorded twice.
pub proof fn law_scans_are_complete(root: Seq<u8>, found: Seq<Found>)
    requires
        root.len() > 0,
        all_below(root, found),
    ensures
        first_stray(root, found) is None,
        all_recorded(root, found, scanned(root, found)),
        all_met(root, found, scanned(root, found)),
        keys_unique(scanned(root, found)),
    decreases found.len(),
{
    if found.len() > 0 {
        let front = found.drop_last();
        let f = found.last();
        assert(found[found.len() - 1] == f);
        assert forall|i: int|
            #![trigger front[i]]
            0 <= i < front.len() && !front[i].is_symlink implies lies_inside(front[i].path@, root)
            && !same_path(front[i].path@, root) by {
            assert(front[i] == found[i]);
        }
        law_scans_are_complete(root, front);
        let rest = scanned(root, front);
        if f.is_symlink {
            lemma_link_recorded(root, found, rest);
        } else {
            law_scanned_paths_are_relative(root, front);
            law_scanned_paths_are_relative(root, found);
            law_stripped_components(f.path@, root);
            law_stripped_joins_back(f.path@, root);
            let e = entry_for(stripped(f.path@, root)->0, f);
            lemma_position(rest, key(e));
            let p = position(rest, key(e));
            assert(inserted(rest, e)[if p >= 0 {
                p
            } else {
                rest.len() as int
            }] == e);
            assert(is_relative(e.rel));
            lemma_insert_recorded(root, found, rest, e);
            lemma_insert_met(root, found, rest, e);
            lemma_inserted(rest, e);
        }
    }
}

/// A scan is refused exactly where something that is no link does not lie below the root,
/// with the first such thing.
#[verifier::rlimit(60)]
pub proof fn law_strays_are_refused(root: Seq<u8>, found: Seq<Found>)
    ensures
        forall|i: int|
            #![trigger found[i]]
            0 <= i < found.len() && !found[i].is_symlink && !components(root).is_prefix_of(
                components(found[i].path@),
            ) && (forall|k: int|
                0 <= k < i ==> (#[trigger] found[k]).is_symlink || components(root).is_prefix_of(
                    components(found[k].path@),
                )) ==> first_stray(root, found) == Some(found[i].path@),
        first_stray(root, found) is None <==> forall|i: int|
            0 <= i < found.len() ==> (#[trigger] found[i]).is_symlink || components(
                root,
            ).is_prefix_of(components(found[i].path@)),
    decreases found.len(),
{
    if found.len() > 0 {
        let front = found.drop_last();
        let n = found.len() - 1;
        law_strays_are_refused(root, front);
        assert(found[n] == found.last());
        assert forall|i: int|
            #![trigger found[i]]
            0 <= i < found.len() && !found[i].is_symlink && !components(root).is_prefix_of(
                components(found[i].path@),
            ) && (forall|k: int|
                0 <= k < i ==> (#[trigger] found[k]).is_symlink || components(root).is_prefix_of(
                    components(found[k].path@),
                )) implies first_stray(root, found) == Some(found[i].path@) by {
            if i < n {
                assert(front[i] == found[i]);
                assert forall|k: int| 0 <= k < i implies (#[trigger] front[k]).is_symlink
                    || components(root).is_prefix_of(components(front[k].path@)) by {
                    assert(front[k] == found[k]);
                }
            } else {
                assert forall|k: int| 0 <= k < front.len() implies (
                #[trigger] front[k]).is_symlink || components(root).is_prefix_of(
                    components(front[k].path@),
                ) by {
                    assert(front[k] == found[k]);
                }
            }
        }
        if first_stray(root, found) is None {
            assert forall|i: int| 0 <= i < found.len() implies (#[trigger] found[i]).is_symlink
                || components(root).is_prefix_of(components(found[i].path@)) by {
                if i < n {
                    assert(front[i] == found[i]);
                }
            }
        }
        if forall|i: int|
            0 <= i < found.len() ==> (#[trigger] found[i]).is_symlink || components(
                root,
            ).is_prefix_of(components(found[i].path@)) {
            assert forall|i: int| 0 <= i < front.len() implies (#[trigger] front[i]).is_symlink
                || components(root).is_prefix_of(components(front[i].path@)) by {
                assert(front[i] == found[i]);
            }
        }
    }
}

} // verus!
