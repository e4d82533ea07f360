//! What a plan achieves: a model of folder trees and of applying actions to them,
//! and the law that a plan turns the destination into a mirror of the source.

use vstd::prelude::*;

use crate::engine::diff::{
    actions_at, apply_ordered, extras, from_source, lemma_extras_covers, lemma_extras_member,
    lemma_from_source_covers, lemma_from_source_member, planned, precedes, verdict, DigestPair,
};
use crate::engine::{key, keys_unique, lemma_position, lookup, position, Act, Entry};
use crate::path::{components, lemma_key_order};

verus! {

/// What a folder tree has at a location.
pub enum Node {
    Dir,
    File(Seq<u8>),
}

/// A folder tree: what lies at each location below its root.
pub type Tree = Map<Seq<Seq<u8>>, Node>;

/// Whether everything in a tree lies below the root, in directories of the tree.
pub open spec fn is_tree(t: Tree) -> bool {
    &&& !t.contains_key(Seq::empty())
    &&& forall|k: Seq<Seq<u8>>, n: int|
        #![trigger t.contains_key(k), k.take(n)]
        t.contains_key(k) && 0 < n < k.len() ==> t.contains_key(k.take(n)) && t[k.take(n)] is Dir
}

/// Whether `e` describes the node `n`.
pub open spec fn fits(e: Entry, n: Node) -> bool {
    match n {
        Node::Dir => e.is_dir,
        Node::File(contents) => !e.is_dir && e.size == contents.len(),
    }
}

/// Whether `s` is a scan of the tree `t`.
pub open spec fn describes(s: Seq<Entry>, t: Tree) -> bool {
    &&& keys_unique(s)
    &&& forall|i: int|
        #![trigger s[i]]
        0 <= i < s.len() ==> t.contains_key(key(s[i])) && fits(s[i], t[key(s[i])])
    &&& forall|k: Seq<Seq<u8>>| #[trigger] t.contains_key(k) ==> lookup(s, k) is Some
}

/// Whether the digests tell apart just those contested files whose contents differ.
pub open spec fn telling(digests: Seq<DigestPair>, source: Tree, destination: Tree) -> bool {
    forall|k: Seq<Seq<u8>>|
        #![trigger verdict(digests, k)]
        source.contains_key(k) && destination.contains_key(k) ==> match (source[k], destination[k]) {
            (Node::File(a), Node::File(b)) => a.len() == b.len() ==> verdict(digests, k) == Some(
                a != b,
            ),
            _ => true,
        }
}

/// Whether a file stands where a directory on the way to `k`, or `k` itself, would
/// have to be.
pub open spec fn is_blocked(t: Tree, k: Seq<Seq<u8>>) -> bool {
    exists|n: int|
        #![trigger k.take(n)]
        0 < n <= k.len() && t.contains_key(k.take(n)) && t[k.take(n)] is File
}

/// `t` with the directory `k` and all directories on the way to it.
pub open spec fn with_dirs(t: Tree, k: Seq<Seq<u8>>) -> Tree {
    Map::new(
        |x: Seq<Seq<u8>>| t.contains_key(x) || (x.len() > 0 && x.is_prefix_of(k)),
        |x: Seq<Seq<u8>>|
            if t.contains_key(x) {
                t[x]
            } else {
                Node::Dir
            },
    )
}

/// `t` without `k` and everything below it.
pub open spec fn without(t: Tree, k: Seq<Seq<u8>>) -> Tree {
    Map::new(|x: Seq<Seq<u8>>| t.contains_key(x) && !k.is_prefix_of(x), |x: Seq<Seq<u8>>| t[x])
}

/// The tree after applying one action, or nothing where the file system refuses
/// it: a directory removed as a file or a file as a directory, a directory made
/// where a file stands, a file written over a directory or below a file.
pub open spec fn step(t: Tree, a: Act, source: Tree) -> Option<Tree> {
    let k = components(a.rel());
    match a {
        Act::Delete(_, is_dir) => if !t.contains_key(k) {
            Some(t)
        } else if (t[k] is Dir) == is_dir {
            Some(without(t, k))
        } else {
            None
        },
        Act::CreateDir(_) => if is_blocked(t, k) {
            None
        } else {
            Some(with_dirs(t, k))
        },
        _ => if k.len() == 0 || is_blocked(t, k.drop_last()) || (t.contains_key(k) && t[k] is Dir)
            || !source.contains_key(k) || source[k] is Dir {
            None
        } else {
            Some(with_dirs(t, k.drop_last()).insert(k, source[k]))
        },
    }
}

/// The tree after applying a list of actions in turn.
pub open spec fn run(t: Tree, acts: Seq<Act>, source: Tree) -> Option<Tree>
    decreases acts.len(),
{
    if acts.len() == 0 {
        Some(t)
    } else {
        match run(t, acts.drop_last(), source) {
            Some(u) => step(u, acts.last(), source),
            None => None,
        }
    }
}

/// Whether the source has a file where a directory on the way to `k` would be.
pub open spec fn is_shadowed(source: Tree, k: Seq<Seq<u8>>) -> bool {
    exists|n: int|
        #![trigger k.take(n)]
        0 < n < k.len() && source.contains_key(k.take(n)) && source[k.take(n)] is File
}

/// The destination as it should be: all of the source and, where extras are kept,
/// what only the destination has and the source leaves room for.
pub open spec fn mirrored(source: Tree, destination: Tree, delete_extras: bool) -> Tree {
    Map::new(
        |k: Seq<Seq<u8>>|
            source.contains_key(k) || (!delete_extras && destination.contains_key(k)
                && !is_shadowed(source, k)),
        |k: Seq<Seq<u8>>|
            if source.contains_key(k) {
                source[k]
            } else {
                destination[k]
            },
    )
}

/// Everything a plan is made from, and the plan.
pub struct Case {
    pub s: Seq<Entry>,
    pub d: Seq<Entry>,
    pub digests: Seq<DigestPair>,
    pub delete_extras: bool,
    pub source: Tree,
    pub destination: Tree,
    pub acts: Seq<Act>,
}

impl Case {
    /// Whether the scans and digests are true of the trees.
    spec fn based(self) -> bool {
        &&& describes(self.s, self.source)
        &&& describes(self.d, self.destination)
        &&& is_tree(self.source)
        &&& is_tree(self.destination)
        &&& telling(self.digests, self.source, self.destination)
    }

    /// Whether the actions are a plan for the trees.
    spec fn ok(self) -> bool {
        &&& self.based()
        &&& apply_ordered(self.acts)
        &&& forall|a: Act| #[trigger]
            self.acts.contains(a) <==> planned(
                self.s,
                self.d,
                self.digests,
                self.delete_extras,
            ).contains(a)
    }

    /// Whether one of the first `i` actions deletes `x` or something above it.
    spec fn deleted(self, i: int, x: Seq<Seq<u8>>) -> bool {
        exists|j: int|
            #![trigger self.acts[j]]
            0 <= j < i && self.acts[j] is Delete && components(self.acts[j].rel()).is_prefix_of(x)
    }

    /// Whether one of the first `i` actions is no deletion.
    spec fn building(self, i: int) -> bool {
        exists|j: int| #![trigger self.acts[j]] 0 <= j < i && !(self.acts[j] is Delete)
    }

    /// What holds of the tree after the first `i` actions.
    spec fn holds(self, i: int, t: Tree) -> bool {
        &&& forall|x: Seq<Seq<u8>>| #[trigger]
            t.contains_key(x) ==> {
                ||| self.destination.contains_key(x) && t[x] == self.destination[x]
                    && !self.deleted(i, x)
                ||| self.source.contains_key(x) && t[x] == self.source[x] && self.building(i)
            }
        &&& forall|x: Seq<Seq<u8>>| #[trigger]
            self.destination.contains_key(x) && !self.deleted(i, x) ==> t.contains_key(x)
        &&& forall|j: int|
            #![trigger self.acts[j]]
            0 <= j < i && !(self.acts[j] is Delete) ==> {
                let k = components(self.acts[j].rel());
                t.contains_key(k) && t[k] == self.source[k]
            }
    }
}

/// What an action of a plan says of the two trees.
proof fn lemma_act(c: Case, a: Act)
    requires
        c.based(),
        planned(c.s, c.d, c.digests, c.delete_extras).contains(a),
    ensures
        ({
            let k = components(a.rel());
            match a {
                Act::Delete(_, is_dir) => {
                    &&& c.destination.contains_key(k)
                    &&& (c.destination[k] is Dir) == is_dir
                    &&& c.source.contains_key(k) ==> (c.source[k] is Dir) != is_dir
                    &&& !c.source.contains_key(k) ==> c.delete_extras
                },
                Act::CreateDir(_) => {
                    &&& c.source.contains_key(k)
                    &&& c.source[k] is Dir
                    &&& c.destination.contains_key(k) ==> c.destination[k] is File
                },
                _ => {
                    &&& c.source.contains_key(k)
                    &&& c.source[k] is File
                    &&& c.destination.contains_key(k) ==> c.destination[k] != c.source[k]
                },
            }
        }),
{
    let all = planned(c.s, c.d, c.digests, c.delete_extras);
    let driven = from_source(c.s, c.d, c.digests);
    let j = choose|j: int| 0 <= j < all.len() && all[j] == a;
    let k = components(a.rel());
    if j < driven.len() {
        lemma_from_source_member(c.s, c.d, c.digests, j);
        assert(driven[j] == a);
        let i = choose|i: int|
            0 <= i < c.s.len() && actions_at(#[trigger] c.s[i], c.d, c.digests).contains(a);
        let e = c.s[i];
        lemma_position(c.d, key(e));
        assert(key(e) == k);
        assert(fits(e, c.source[k]));
        if let Some(d) = lookup(c.d, k) {
            let p = position(c.d, k);
            assert(c.d[p] == d);
            assert(fits(d, c.destination[k]));
            assert(telling(c.digests, c.source, c.destination));
            assert(verdict(c.digests, k) == verdict(c.digests, k));
        }
    } else {
        lemma_extras_member(c.s, c.d, j - driven.len());
        assert(all[j] == extras(c.s, c.d)[j - driven.len()]);
        let i = choose|i: int|
            #![trigger c.d[i]]
            0 <= i < c.d.len() && lookup(c.s, key(c.d[i])) is None && a == Act::Delete(
                c.d[i].rel,
                c.d[i].is_dir,
            );
        assert(fits(c.d[i], c.destination[k]));
        if c.source.contains_key(k) {
            assert(lookup(c.s, k) is Some);
        }
    }
}

/// The action with which a plan deals with a location of the destination that has
/// to go.
proof fn lemma_must_delete(c: Case, k: Seq<Seq<u8>>) -> (j: int)
    requires
        c.ok(),
        c.destination.contains_key(k),
        c.source.contains_key(k) ==> (c.source[k] is Dir) != (c.destination[k] is Dir),
        !c.source.contains_key(k) ==> c.delete_extras,
    ensures
        0 <= j < c.acts.len(),
        c.acts[j] is Delete,
        components(c.acts[j].rel()) == k,
{
    assert(lookup(c.d, k) is Some);
    lemma_position(c.d, k);
    let d = c.d[position(c.d, k)];
    assert(fits(d, c.destination[k]));
    let all = planned(c.s, c.d, c.digests, c.delete_extras);
    let driven = from_source(c.s, c.d, c.digests);
    let ext = extras(c.s, c.d);
    let a = if c.source.contains_key(k) {
        assert(lookup(c.s, k) is Some);
        lemma_position(c.s, k);
        let i = position(c.s, k);
        let e = c.s[i];
        assert(fits(e, c.source[k]));
        let a = Act::Delete(e.rel, d.is_dir);
        assert(actions_at(e, c.d, c.digests)[0] == a);
        lemma_from_source_covers(c.s, c.d, c.digests, i, a);
        let n = choose|n: int| 0 <= n < driven.len() && driven[n] == a;
        assert(all[n] == a);
        a
    } else {
        lemma_position(c.s, k);
        if position(c.s, k) >= 0 {
            assert(c.source.contains_key(key(c.s[position(c.s, k)])));
        }
        let a = Act::Delete(d.rel, d.is_dir);
        lemma_extras_covers(c.s, c.d, position(c.d, k));
        let n = choose|n: int| 0 <= n < ext.len() && ext[n] == a;
        assert(all[driven.len() + n] == a);
        a
    };
    assert(c.acts.contains(a));
    choose|j: int| 0 <= j < c.acts.len() && c.acts[j] == a
}

/// The action with which a plan brings a location of the source to the
/// destination, where that does not have the same already.
proof fn lemma_must_build(c: Case, k: Seq<Seq<u8>>) -> (j: int)
    requires
        c.ok(),
        c.source.contains_key(k),
        c.destination.contains_key(k) ==> c.source[k] != c.destination[k],
    ensures
        0 <= j < c.acts.len(),
        !(c.acts[j] is Delete),
        components(c.acts[j].rel()) == k,
{
    assert(lookup(c.s, k) is Some);
    lemma_position(c.s, k);
    let i = position(c.s, k);
    let e = c.s[i];
    assert(fits(e, c.source[k]));
    lemma_position(c.d, k);
    if let Some(d) = lookup(c.d, k) {
        assert(c.d[position(c.d, k)] == d);
        assert(fits(d, c.destination[k]));
        assert(telling(c.digests, c.source, c.destination));
        assert(verdict(c.digests, k) == verdict(c.digests, k));
    } else if c.destination.contains_key(k) {
        assert(false);
    }
    let mine = actions_at(e, c.d, c.digests);
    assert(mine.len() > 0);
    let a = mine[mine.len() - 1];
    assert(!(a is Delete) && components(a.rel()) == k);
    lemma_from_source_covers(c.s, c.d, c.digests, i, a);
    let driven = from_source(c.s, c.d, c.digests);
    let all = planned(c.s, c.d, c.digests, c.delete_extras);
    let n = choose|n: int| 0 <= n < driven.len() && driven[n] == a;
    assert(all[n] == a);
    assert(c.acts.contains(a));
    choose|j: int| 0 <= j < c.acts.len() && c.acts[j] == a
}

/// A plan deletes nothing at or above a location that both sides have alike.
proof fn lemma_kept(c: Case, x: Seq<Seq<u8>>)
    requires
        c.ok(),
        c.source.contains_key(x),
        c.destination.contains_key(x),
        (c.source[x] is Dir) == (c.destination[x] is Dir),
    ensures
        !c.deleted(c.acts.len() as int, x),
{
    if c.deleted(c.acts.len() as int, x) {
        let j = choose|j: int|
            #![trigger c.acts[j]]
            0 <= j < c.acts.len() && c.acts[j] is Delete && components(
                c.acts[j].rel(),
            ).is_prefix_of(x);
        let k = components(c.acts[j].rel());
        assert(c.acts.contains(c.acts[j]));
        lemma_act(c, c.acts[j]);
        let n = k.len() as int;
        assert(x.take(n) =~= k);
        if n == 0 {
            assert(k =~= Seq::empty());
        } else if n == x.len() {
            assert(k =~= x);
        } else {
            assert(c.source.contains_key(x.take(n)));
            assert(c.destination.contains_key(x.take(n)));
        }
    }
}

/// Before anything is built at a location of the source, nothing there that is of
/// the other kind is left.
proof fn lemma_clear(c: Case, i: int, t: Tree, x: Seq<Seq<u8>>)
    requires
        c.ok(),
        0 <= i < c.acts.len(),
        c.holds(i, t),
        !(c.acts[i] is Delete),
        c.source.contains_key(x),
        t.contains_key(x),
    ensures
        (t[x] is Dir) == (c.source[x] is Dir),
{
    if (t[x] is Dir) != (c.source[x] is Dir) {
        assert(t[x] == c.destination[x]);
        let j = lemma_must_delete(c, x);
        if i < j {
            assert(precedes(c.acts[i], c.acts[j]));
        }
        assert(components(c.acts[j].rel()).is_prefix_of(x)) by {
            assert(x.subrange(0, x.len() as int) =~= x);
        }
        assert(c.deleted(i, x));
    }
}

proof fn lemma_not_blocked(c: Case, i: int, t: Tree, k: Seq<Seq<u8>>)
    requires
        c.ok(),
        0 <= i < c.acts.len(),
        c.holds(i, t),
        !(c.acts[i] is Delete),
        forall|n: int|
            #![trigger k.take(n)]
            0 < n <= k.len() ==> c.source.contains_key(k.take(n)) && c.source[k.take(n)] is Dir,
    ensures
        !is_blocked(t, k),
{
    if is_blocked(t, k) {
        let n = choose|n: int|
            #![trigger k.take(n)]
            0 < n <= k.len() && t.contains_key(k.take(n)) && t[k.take(n)] is File;
        lemma_clear(c, i, t, k.take(n));
    }
}

proof fn lemma_step(c: Case, i: int, t: Tree)
    requires
        c.ok(),
        0 <= i < c.acts.len(),
        c.holds(i, t),
    ensures
        step(t, c.acts[i], c.source) matches Some(u) && c.holds(i + 1, u),
{
    let a = c.acts[i];
    let k = components(a.rel());
    assert(c.acts.contains(a));
    lemma_act(c, a);
    if a is Delete {
        assert forall|j: int| #![trigger c.acts[j]] 0 <= j < i implies c.acts[j] is Delete by {
            assert(precedes(c.acts[j], c.acts[i]));
        }
        if c.deleted(i, k) {
            let j = choose|j: int|
                #![trigger c.acts[j]]
                0 <= j < i && c.acts[j] is Delete && components(c.acts[j].rel()).is_prefix_of(k);
            assert(precedes(c.acts[j], c.acts[i]));
            let above = components(c.acts[j].rel());
            assert(k.subrange(0, above.len() as int) =~= above);
            assert(above.len() == k.len());
            assert(above =~= k);
            lemma_key_order(above, k);
        }
        let u = without(t, k);
        assert(step(t, a, c.source) == Some(u));
        assert forall|x: Seq<Seq<u8>>| #[trigger] u.contains_key(x) implies {
            ||| c.destination.contains_key(x) && u[x] == c.destination[x] && !c.deleted(i + 1, x)
            ||| c.source.contains_key(x) && u[x] == c.source[x] && c.building(i + 1)
        } by {
            assert(t.contains_key(x));
            if c.deleted(i + 1, x) {
                let j = choose|j: int|
                    #![trigger c.acts[j]]
                    0 <= j < i + 1 && c.acts[j] is Delete && components(
                        c.acts[j].rel(),
                    ).is_prefix_of(x);
                assert(j < i);
                assert(c.deleted(i, x));
            }
        }
        assert forall|x: Seq<Seq<u8>>| #[trigger]
            c.destination.contains_key(x) && !c.deleted(i + 1, x) implies u.contains_key(x) by {
            if c.deleted(i, x) {
                let j = choose|j: int|
                    #![trigger c.acts[j]]
                    0 <= j < i && c.acts[j] is Delete && components(c.acts[j].rel()).is_prefix_of(x);
                assert(c.acts[j] is Delete);
                assert(c.deleted(i + 1, x));
            }
            if k.is_prefix_of(x) {
                assert(c.acts[i] is Delete);
                assert(c.deleted(i + 1, x));
            }
        }
        assert(c.holds(i + 1, u));
    } else {
        let dirs = if a is CreateDir {
            k
        } else {
            k.drop_last()
        };
        if k.len() == 0 {
            assert(k =~= Seq::empty());
        }
        assert forall|n: int|
            #![trigger dirs.take(n)]
            0 < n <= dirs.len() implies c.source.contains_key(dirs.take(n)) && c.source[dirs.take(
            n,
        )] is Dir by {
            assert(dirs.take(n) =~= k.take(n));
            if n == k.len() {
                assert(k.take(n) =~= k);
            } else {
                assert(c.source.contains_key(k));
            }
        }
        lemma_not_blocked(c, i, t, dirs);
        if t.contains_key(k) {
            lemma_clear(c, i, t, k);
        }
        let u = step(t, a, c.source).unwrap();
        let v = with_dirs(t, dirs);
        assert(step(t, a, c.source) is Some);
        assert(c.building(i + 1)) by {
            assert(!(c.acts[i] is Delete));
        }
        assert forall|x: Seq<Seq<u8>>| c.deleted(i + 1, x) == c.deleted(i, x) by {
            if c.deleted(i, x) {
                let j = choose|j: int|
                    #![trigger c.acts[j]]
                    0 <= j < i && c.acts[j] is Delete && components(c.acts[j].rel()).is_prefix_of(x);
                assert(c.acts[j] is Delete);
            }
            if c.deleted(i + 1, x) {
                let j = choose|j: int|
                    #![trigger c.acts[j]]
                    0 <= j < i + 1 && c.acts[j] is Delete && components(
                        c.acts[j].rel(),
                    ).is_prefix_of(x);
                assert(j < i);
            }
        }
        assert forall|x: Seq<Seq<u8>>| #[trigger] u.contains_key(x) implies {
            ||| c.destination.contains_key(x) && u[x] == c.destination[x] && !c.deleted(i + 1, x)
            ||| c.source.contains_key(x) && u[x] == c.source[x] && c.building(i + 1)
        } by {
            if a is CreateDir || x != k {
                assert(v.contains_key(x) && u[x] == v[x]);
                if !t.contains_key(x) {
                    assert(x =~= dirs.take(x.len() as int));
                }
            }
        }
        assert forall|x: Seq<Seq<u8>>| #[trigger]
            c.destination.contains_key(x) && !c.deleted(i + 1, x) implies u.contains_key(x) by {
            assert(t.contains_key(x));
        }
        assert forall|j: int|
            #![trigger c.acts[j]]
            0 <= j < i + 1 && !(c.acts[j] is Delete) implies ({
            let k = components(c.acts[j].rel());
            u.contains_key(k) && u[k] == c.source[k]
        }) by {
            let kj = components(c.acts[j].rel());
            if j < i {
                assert(t.contains_key(kj) && t[kj] == c.source[kj]);
            } else if a is CreateDir {
                assert(k.subrange(0, k.len() as int) =~= k);
                assert(u.contains_key(k));
                assert(u[k] is Dir);
                assert(c.source[k] is Dir);
            }
        }
        assert(c.holds(i + 1, u));
    }
}

proof fn lemma_run(c: Case, i: int) -> (t: Tree)
    requires
        c.ok(),
        0 <= i <= c.acts.len(),
    ensures
        run(c.destination, c.acts.take(i), c.source) == Some(t),
        c.holds(i, t),
    decreases i,
{
    if i == 0 {
        assert(c.acts.take(0).len() == 0);
        c.destination
    } else {
        let u = lemma_run(c, i - 1);
        lemma_step(c, i - 1, u);
        assert(c.acts.take(i).drop_last() =~= c.acts.take(i - 1));
        assert(c.acts.take(i).last() == c.acts[i - 1]);
        step(u, c.acts[i - 1], c.source).unwrap()
    }
}

/// What only the destination has is deleted just where extras are, or where it
/// lies below a file of the source.
proof fn lemma_gone(c: Case, x: Seq<Seq<u8>>)
    requires
        c.ok(),
        c.destination.contains_key(x),
        !c.source.contains_key(x),
    ensures
        c.deleted(c.acts.len() as int, x) == (c.delete_extras || is_shadowed(c.source, x)),
{
    let n = c.acts.len() as int;
    if c.delete_extras {
        let j = lemma_must_delete(c, x);
        assert(x.subrange(0, x.len() as int) =~= x);
        assert(c.acts[j] is Delete);
    }
    if is_shadowed(c.source, x) {
        let m = choose|m: int|
            #![trigger x.take(m)]
            0 < m < x.len() && c.source.contains_key(x.take(m)) && c.source[x.take(m)] is File;
        assert(c.destination.contains_key(x.take(m)) && c.destination[x.take(m)] is Dir);
        let j = lemma_must_delete(c, x.take(m));
        assert(x.subrange(0, m) =~= x.take(m));
        assert(c.acts[j] is Delete);
    }
    if c.deleted(n, x) {
        let j = choose|j: int|
            #![trigger c.acts[j]]
            0 <= j < n && c.acts[j] is Delete && components(c.acts[j].rel()).is_prefix_of(x);
        let k = components(c.acts[j].rel());
        assert(c.acts.contains(c.acts[j]));
        lemma_act(c, c.acts[j]);
        if c.source.contains_key(k) {
            let m = k.len() as int;
            assert(x.take(m) =~= k);
            if m == 0 {
                assert(k =~= Seq::empty());
            } else if m == x.len() {
                assert(k =~= x);
            } else {
                assert(c.destination.contains_key(x.take(m)));
                assert(is_shadowed(c.source, x));
            }
        }
    }
}

/// Applied in its order, a plan never runs into a refusal of the file system, and
/// it leaves the destination a mirror of the source: with everything the source
/// has, and with what only the destination had just where extras are kept and the
/// source has no file in the way.
///
/// `acts` is any list that is ordered as a plan is and holds what a plan holds;
/// `source` and `destination` are the trees that the scans describe.
pub proof fn law_plan_mirrors(
    s: Seq<Entry>,
    d: Seq<Entry>,
    digests: Seq<DigestPair>,
    delete_extras: bool,
    source: Tree,
    destination: Tree,
    acts: Seq<Act>,
)
    requires
        describes(s, source),
        describes(d, destination),
        is_tree(source),
        is_tree(destination),
        telling(digests, source, destination),
        apply_ordered(acts),
        forall|a: Act| #[trigger]
            acts.contains(a) <==> planned(s, d, digests, delete_extras).contains(a),
    ensures
        run(destination, acts, source) == Some(mirrored(source, destination, delete_extras)),
{
    let c = Case { s, d, digests, delete_extras, source, destination, acts };
    let n = acts.len() as int;
    let t = lemma_run(c, n);
    assert(acts.take(n) =~= acts);
    let goal = mirrored(source, destination, delete_extras);
    assert forall|x: Seq<Seq<u8>>| #[trigger] source.contains_key(x) implies t.contains_key(x)
        && t[x] == source[x] by {
        if destination.contains_key(x) && source[x] == destination[x] {
            lemma_kept(c, x);
            assert(t.contains_key(x));
        } else {
            let j = lemma_must_build(c, x);
            assert(!(c.acts[j] is Delete));
        }
    }
    assert forall|x: Seq<Seq<u8>>| t.contains_key(x) == goal.contains_key(x) by {
        if !source.contains_key(x) && destination.contains_key(x) {
            lemma_gone(c, x);
        }
    }
    assert(t =~= goal);
}

/// Once a destination mirrors the source, a new plan for it is empty.
pub proof fn law_second_plan_is_empty(
    s: Seq<Entry>,
    d: Seq<Entry>,
    digests: Seq<DigestPair>,
    delete_extras: bool,
    source: Tree,
    before: Tree,
)
    requires
        describes(s, source),
        describes(d, mirrored(source, before, delete_extras)),
        is_tree(source),
        is_tree(before),
        telling(digests, source, mirrored(source, before, delete_extras)),
    ensures
        planned(s, d, digests, delete_extras).len() == 0,
{
    let destination = mirrored(source, before, delete_extras);
    assert forall|k: Seq<Seq<u8>>, n: int|
        #![trigger destination.contains_key(k), k.take(n)]
        destination.contains_key(k) && 0 < n < k.len() implies destination.contains_key(k.take(n))
        && destination[k.take(n)] is Dir by {
        if source.contains_key(k) {
            assert(source.contains_key(k.take(n)));
        } else {
            assert(before.contains_key(k.take(n)));
            if !source.contains_key(k.take(n)) && is_shadowed(source, k.take(n)) {
                let m = choose|m: int|
                    #![trigger k.take(n).take(m)]
                    0 < m < k.take(n).len() && source.contains_key(k.take(n).take(m))
                        && source[k.take(n).take(m)] is File;
                assert(k.take(n).take(m) =~= k.take(m));
                assert(is_shadowed(source, k));
            }
            if source.contains_key(k.take(n)) && source[k.take(n)] is File {
                assert(is_shadowed(source, k));
            }
        }
    }
    let c = Case { s, d, digests, delete_extras, source, destination, acts: Seq::empty() };
    let all = planned(s, d, digests, delete_extras);
    if all.len() > 0 {
        assert(all.contains(all[0]));
        lemma_act(c, all[0]);
    }
}

/// After a sync the folders match: applying the plan succeeds, each file and directory of
/// the source stands in the destination with the same contents, and scanning and
/// planning once more gives an empty plan.
///
/// `again` is a scan of the destination after the sync, `second` what the digests of a
/// second run tell.
pub proof fn law_synced_folders_match(
    s: Seq<Entry>,
    d: Seq<Entry>,
    digests: Seq<DigestPair>,
    delete_extras: bool,
    source: Tree,
    destination: Tree,
    acts: Seq<Act>,
    again: Seq<Entry>,
    second: Seq<DigestPair>,
)
    requires
        describes(s, source),
        describes(d, destination),
        is_tree(source),
        is_tree(destination),
        telling(digests, source, destination),
        apply_ordered(acts),
        forall|a: Act| #[trigger]
            acts.contains(a) <==> planned(s, d, digests, delete_extras).contains(a),
        run(destination, acts, source) matches Some(after) ==> describes(again, after) && telling(
            second,
            source,
            after,
        ),
    ensures
        run(destination, acts, source) matches Some(after) && {
            &&& forall|k: Seq<Seq<u8>>| #[trigger]
                source.contains_key(k) ==> after.contains_key(k) && after[k] == source[k]
            &&& delete_extras ==> after == source
            &&& planned(s, again, second, delete_extras).len() == 0
        },
{
    law_plan_mirrors(s, d, digests, delete_extras, source, destination, acts);
    law_second_plan_is_empty(s, again, second, delete_extras, source, destination);
    assert(delete_extras ==> mirrored(source, destination, delete_extras) =~= source);
}

} // verus!
