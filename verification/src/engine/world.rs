//! What applying a plan does to the file system: a model of file-system operations, and
//! the law that they mirror the source into the destination and change nothing else.

use vstd::prelude::*;

use crate::engine::apply::{op_for, Op};
use crate::engine::diff::{
    actions_at, apply_ordered, extras, from_source, has_digests, law_digests_settle,
    lemma_extras_member, lemma_from_source_member, planned, verdict, DigestPair,
};
use crate::engine::hash::blake3_digest;
use crate::engine::mirror::{
    describes, fits, is_blocked, is_tree, law_plan_mirrors, mirrored, run, step, telling,
    with_dirs, without, Node, Tree,
};
use crate::engine::scan::{
    all_below, is_latest, is_met, is_relative, law_scanned_paths_are_relative,
    law_scans_are_complete, records, scanned, Found,
};
use crate::engine::{key, lemma_position, lookup, Act, Entry};
use crate::path::{
    components, joined, law_join_appends, law_parent_components, lemma_components_are_parts,
    overlap, parent_of, same_path, SLASH,
};

verus! {

/// The file system after an operation, or nothing where it is refused. A file system is
/// a tree from the root on.
pub open spec fn performed(w: Tree, op: Op) -> Option<Tree> {
    match op {
        Op::CreateDirAll(p) => if is_blocked(w, components(p)) {
            None
        } else {
            Some(with_dirs(w, components(p)))
        },
        Op::CopyFile(parent, from, to) => {
            let up = match parent {
                Some(p) => components(p),
                None => Seq::empty(),
            };
            let k = components(to);
            let f = components(from);
            if is_blocked(w, up) || (w.contains_key(k) && w[k] is Dir) || !w.contains_key(f)
                || w[f] is Dir {
                None
            } else {
                Some(with_dirs(w, up).insert(k, w[f]))
            }
        },
        Op::RemoveDirAll(p) => removed(w, components(p), true),
        Op::RemoveFile(p) => removed(w, components(p), false),
    }
}

/// The file system without `k`, where that is there and of the right kind.
pub open spec fn removed(w: Tree, k: Seq<Seq<u8>>, is_dir: bool) -> Option<Tree> {
    if !w.contains_key(k) {
        Some(w)
    } else if (w[k] is Dir) == is_dir {
        Some(without(w, k))
    } else {
        None
    }
}

/// The file system after the operations for a list of actions, one after the other.
pub open spec fn applied(
    w: Tree,
    acts: Seq<Act>,
    source: Seq<u8>,
    destination: Seq<u8>,
) -> Option<Tree>
    decreases acts.len(),
{
    if acts.len() == 0 {
        Some(w)
    } else {
        match applied(w, acts.drop_last(), source, destination) {
            Some(u) => performed(u, op_for(acts.last(), source, destination)),
            None => None,
        }
    }
}

/// What lies below a folder, by where it lies relative to it.
pub open spec fn below(w: Tree, base: Seq<Seq<u8>>) -> Tree {
    Map::new(
        |x: Seq<Seq<u8>>| x.len() > 0 && w.contains_key(base + x),
        |x: Seq<Seq<u8>>| w[base + x],
    )
}

/// Whether two file systems have the same outside of a folder.
pub open spec fn same_outside(a: Tree, b: Tree, base: Seq<Seq<u8>>) -> bool {
    forall|k: Seq<Seq<u8>>|
        #![trigger a.contains_key(k)]
        #![trigger b.contains_key(k)]
        !base.is_prefix_of(k) ==> a.contains_key(k) == b.contains_key(k) && (a.contains_key(k)
            ==> a[k] == b[k])
}

/// Whether there is such a folder.
pub open spec fn is_folder(w: Tree, k: Seq<Seq<u8>>) -> bool {
    k.len() > 0 && w.contains_key(k) && w[k] is Dir
}

proof fn lemma_prefix(d: Seq<Seq<u8>>, k: Seq<Seq<u8>>, n: int)
    requires
        0 <= n <= d.len() + k.len(),
    ensures
        n <= d.len() ==> (d + k).take(n) == d.take(n),
        n >= d.len() ==> (d + k).take(n) == d + k.take(n - d.len()),
        d.is_prefix_of(d + k),
{
    assert(n <= d.len() ==> (d + k).take(n) =~= d.take(n));
    assert(n >= d.len() ==> (d + k).take(n) =~= d + k.take(n - d.len()));
    assert((d + k).subrange(0, d.len() as int) =~= d);
}

/// What lies below a folder is a tree.
proof fn lemma_below_is_tree(w: Tree, d: Seq<Seq<u8>>)
    requires
        is_tree(w),
    ensures
        is_tree(below(w, d)),
{
    let t = below(w, d);
    assert forall|k: Seq<Seq<u8>>, n: int|
        #![trigger t.contains_key(k), k.take(n)]
        t.contains_key(k) && 0 < n < k.len() implies t.contains_key(k.take(n)) && t[k.take(
        n,
    )] is Dir by {
        lemma_prefix(d, k, d.len() + n);
        assert(w.contains_key((d + k).take(d.len() + n)));
    }
}

/// What stands in the way on the way to something below a folder, stands below it.
proof fn lemma_blocked_below(w: Tree, d: Seq<Seq<u8>>, k: Seq<Seq<u8>>)
    requires
        is_tree(w),
        is_folder(w, d),
    ensures
        is_blocked(w, d + k) == is_blocked(below(w, d), k),
{
    let t = below(w, d);
    let g = d + k;
    if is_blocked(w, g) {
        let n = choose|n: int|
            #![trigger g.take(n)]
            0 < n <= g.len() && w.contains_key(g.take(n)) && w[g.take(n)] is File;
        lemma_prefix(d, k, n);
        if n <= d.len() {
            assert(d.take(d.len() as int) =~= d);
            assert(n == d.len() || w[d.take(n)] is Dir);
            assert(false);
        }
        let m = n - d.len();
        assert(t.contains_key(k.take(m)) && t[k.take(m)] is File);
    }
    if is_blocked(t, k) {
        let m = choose|m: int|
            #![trigger k.take(m)]
            0 < m <= k.len() && t.contains_key(k.take(m)) && t[k.take(m)] is File;
        lemma_prefix(d, k, d.len() + m);
        assert(w.contains_key(g.take(d.len() + m)));
    }
}

/// Directories made below a folder are made there and nowhere else.
proof fn lemma_dirs_below(w: Tree, d: Seq<Seq<u8>>, k: Seq<Seq<u8>>)
    requires
        is_tree(w),
        is_folder(w, d),
        !is_blocked(w, d + k),
    ensures
        is_tree(with_dirs(w, d + k)),
        is_folder(with_dirs(w, d + k), d),
        below(with_dirs(w, d + k), d) == with_dirs(below(w, d), k),
        same_outside(w, with_dirs(w, d + k), d),
{
    let g = d + k;
    let v = with_dirs(w, g);
    lemma_prefix(d, k, d.len() as int);
    // On the way to the folder everything is there already.
    assert forall|x: Seq<Seq<u8>>|
        x.len() > 0 && #[trigger] x.is_prefix_of(g) && x.len() <= d.len() implies w.contains_key(
        x,
    ) by {
        lemma_prefix(d, k, x.len() as int);
        assert(x =~= g.take(x.len() as int));
        if x.len() == d.len() {
            assert(d.take(d.len() as int) =~= d);
        } else {
            assert(w.contains_key(d.take(x.len() as int)));
        }
    }
    assert forall|x: Seq<Seq<u8>>, n: int|
        #![trigger v.contains_key(x), x.take(n)]
        v.contains_key(x) && 0 < n < x.len() implies v.contains_key(x.take(n)) && v[x.take(
        n,
    )] is Dir by {
        if w.contains_key(x) {
            assert(w.contains_key(x.take(n)));
        } else {
            assert(x =~= g.take(x.len() as int));
            assert(x.take(n) =~= g.take(n));
            assert(g.subrange(0, n) =~= g.take(n));
            assert(x.take(n).is_prefix_of(g));
        }
    }
    let a = below(v, d);
    let b = with_dirs(below(w, d), k);
    assert forall|x: Seq<Seq<u8>>| #[trigger] a.contains_key(x) == b.contains_key(x) by {
        if x.len() > 0 {
            assert((d + x).is_prefix_of(g) == x.is_prefix_of(k)) by {
                if (d + x).is_prefix_of(g) {
                    assert(x =~= k.subrange(0, x.len() as int)) by {
                        assert forall|i: int| 0 <= i < x.len() implies x[i] == k[i] by {
                            assert((d + x)[d.len() + i] == g.subrange(0, (d + x).len() as int)[
                            d.len() + i]);
                        }
                    }
                }
                if x.is_prefix_of(k) {
                    assert(d + x =~= g.subrange(0, (d + x).len() as int)) by {
                        assert forall|i: int| 0 <= i < x.len() implies x[i] == k[i] by {
                            assert(k.subrange(0, x.len() as int)[i] == k[i]);
                        }
                    }
                }
            }
        }
    }
    assert(a =~= b);
    assert forall|x: Seq<Seq<u8>>|
        #![trigger w.contains_key(x)]
        #![trigger v.contains_key(x)]
        !d.is_prefix_of(x) implies w.contains_key(x) == v.contains_key(x) && (w.contains_key(x)
        ==> w[x] == v[x]) by {
        if x.len() > 0 && x.is_prefix_of(g) && x.len() > d.len() {
            assert(x =~= g.take(x.len() as int));
            lemma_prefix(d, k, x.len() as int);
            lemma_prefix(d, k.take(x.len() - d.len()), 0);
        }
    }
}

/// What is removed below a folder is removed there and nowhere else.
proof fn lemma_removed_below(w: Tree, d: Seq<Seq<u8>>, k: Seq<Seq<u8>>)
    requires
        is_tree(w),
        is_folder(w, d),
        k.len() > 0,
    ensures
        is_tree(without(w, d + k)),
        is_folder(without(w, d + k), d),
        below(without(w, d + k), d) == without(below(w, d), k),
        same_outside(w, without(w, d + k), d),
{
    let g = d + k;
    let v = without(w, g);
    lemma_prefix(d, k, d.len() as int);
    assert forall|x: Seq<Seq<u8>>, n: int|
        #![trigger v.contains_key(x), x.take(n)]
        v.contains_key(x) && 0 < n < x.len() implies v.contains_key(x.take(n)) && v[x.take(
        n,
    )] is Dir by {
        assert(w.contains_key(x.take(n)));
        if g.is_prefix_of(x.take(n)) {
            assert(x.subrange(0, g.len() as int) =~= x.take(n).subrange(0, g.len() as int));
            assert(g.is_prefix_of(x));
        }
    }
    let a = below(v, d);
    let b = without(below(w, d), k);
    assert forall|x: Seq<Seq<u8>>| #[trigger] a.contains_key(x) == b.contains_key(x) by {
        assert(g.is_prefix_of(d + x) == k.is_prefix_of(x)) by {
            if g.is_prefix_of(d + x) {
                assert(k =~= x.subrange(0, k.len() as int)) by {
                    assert forall|i: int| 0 <= i < k.len() implies x[i] == k[i] by {
                        assert(g[d.len() + i] == (d + x).subrange(0, g.len() as int)[d.len() + i]);
                    }
                }
            }
            if k.is_prefix_of(x) {
                assert(g =~= (d + x).subrange(0, g.len() as int)) by {
                    assert forall|i: int| 0 <= i < k.len() implies x[i] == k[i] by {
                        assert(x.subrange(0, k.len() as int)[i] == k[i]);
                    }
                }
            }
        }
    }
    assert(a =~= b);
    assert forall|x: Seq<Seq<u8>>|
        #![trigger w.contains_key(x)]
        #![trigger v.contains_key(x)]
        !d.is_prefix_of(x) implies w.contains_key(x) == v.contains_key(x) && (w.contains_key(x)
        ==> w[x] == v[x]) by {
        if g.is_prefix_of(x) {
            assert(x.subrange(0, d.len() as int) =~= g.subrange(0, d.len() as int)) by {
                assert(g == x.subrange(0, g.len() as int));
            }
        }
    }
}

/// What is written below a folder is written there and nowhere else.
proof fn lemma_written_below(w: Tree, d: Seq<Seq<u8>>, k: Seq<Seq<u8>>, node: Node)
    requires
        is_tree(w),
        is_folder(w, d),
        k.len() > 0,
        !is_blocked(w, d + k.drop_last()),
        w.contains_key(d + k) ==> w[d + k] is File,
    ensures
        ({
            let made = with_dirs(w, d + k.drop_last());
            let v = made.insert(d + k, node);
            &&& node is File ==> is_tree(v)
            &&& is_folder(v, d)
            &&& below(v, d) == with_dirs(below(w, d), k.drop_last()).insert(k, node)
            &&& same_outside(w, v, d)
        }),
{
    let up = k.drop_last();
    let g = d + k;
    lemma_dirs_below(w, d, up);
    lemma_prefix(d, k, d.len() as int);
    let made = with_dirs(w, d + up);
    let v = made.insert(g, node);
    assert(d != g) by {
        assert(d.len() < g.len());
    }
    assert(g.drop_last() =~= d + up);
    if node is File {
        assert forall|x: Seq<Seq<u8>>, n: int|
            #![trigger v.contains_key(x), x.take(n)]
            v.contains_key(x) && 0 < n < x.len() implies v.contains_key(x.take(n)) && v[x.take(
            n,
        )] is Dir by {
            if x == g {
                assert(g.take(n) =~= (d + up).take(n));
                if n == g.len() - 1 {
                    assert((d + up).take(n) =~= d + up);
                    assert((d + up).is_prefix_of(d + up)) by {
                        assert((d + up).subrange(0, n) =~= d + up);
                    }
                    assert(made.contains_key(d + up));
                    assert((d + up).take(n) == d + up);
                    if w.contains_key(d + up) && w[d + up] is File {
                        assert(is_blocked(w, d + up));
                    }
                } else {
                    let p = d + up;
                    assert((p.subrange(0, p.len() as int)) =~= p);
                    assert(made.contains_key(p));
                    assert(made.contains_key(p.take(n)) && made[p.take(n)] is Dir);
                }
                assert(g.take(n) != g);
            } else {
                assert(made.contains_key(x));
                assert(made.contains_key(x.take(n)) && made[x.take(n)] is Dir);
                if x.take(n) == g {
                    // Then something lies below the file that is written over.
                    assert(made.contains_key(g) && made[g] is Dir);
                    if !w.contains_key(g) {
                        assert(g.is_prefix_of(d + up));
                        assert(g.len() > (d + up).len());
                    }
                }
            }
        }
    }
    let a = below(v, d);
    let b = with_dirs(below(w, d), up).insert(k, node);
    assert forall|x: Seq<Seq<u8>>| #[trigger] a.contains_key(x) == b.contains_key(x) && (
    a.contains_key(x) ==> a[x] == b[x]) by {
        if d + x == g {
            assert(x =~= k) by {
                assert forall|i: int| 0 <= i < x.len() implies x[i] == k[i] by {
                    assert((d + x)[d.len() + i] == g[d.len() + i]);
                }
            }
        }
        assert(below(made, d).contains_key(x) == with_dirs(below(w, d), up).contains_key(x));
        if below(made, d).contains_key(x) {
            assert(below(made, d)[x] == with_dirs(below(w, d), up)[x]);
        }
    }
    assert(a =~= b);
}

/// Two folders that do not overlap: what changes in one leaves the other as it is.
proof fn lemma_other_folder(w: Tree, v: Tree, d: Seq<Seq<u8>>, s: Seq<Seq<u8>>)
    requires
        same_outside(w, v, d),
        !d.is_prefix_of(s),
        !s.is_prefix_of(d),
    ensures
        below(v, s) == below(w, s),
{
    assert forall|x: Seq<Seq<u8>>| !d.is_prefix_of(#[trigger] (s + x)) by {
        if d.is_prefix_of(s + x) {
            assert(d == (s + x).subrange(0, d.len() as int));
            if d.len() <= s.len() {
                assert(d =~= s.subrange(0, d.len() as int)) by {
                    assert forall|i: int| 0 <= i < d.len() implies d[i] == s[i] by {
                        assert((s + x).subrange(0, d.len() as int)[i] == s[i]);
                    }
                }
            } else {
                assert(s =~= d.subrange(0, s.len() as int)) by {
                    assert forall|i: int| 0 <= i < s.len() implies d[i] == s[i] by {
                        assert((s + x).subrange(0, d.len() as int)[i] == s[i]);
                    }
                }
            }
        }
    }
    assert forall|x: Seq<Seq<u8>>| below(v, s).contains_key(x) == #[trigger] below(
        w,
        s,
    ).contains_key(x) && (below(w, s).contains_key(x) ==> below(v, s)[x] == below(w, s)[x]) by {
        assert(!d.is_prefix_of(s + x));
        assert(w.contains_key(s + x) == v.contains_key(s + x));
    }
    assert(below(v, s) =~= below(w, s));
}

/// An operation does to the destination what its action does to a tree, and nothing to
/// anything else.
proof fn lemma_performed(w: Tree, a: Act, source: Seq<u8>, destination: Seq<u8>)
    requires
        is_tree(w),
        is_folder(w, components(destination)),
        source.len() > 0,
        destination.len() > 0,
        !overlap(source, destination),
        is_relative(a.rel()),
    ensures
        step(below(w, components(destination)), a, below(w, components(source))) matches Some(
            t,
        ) ==> performed(w, op_for(a, source, destination)) matches Some(v) && {
            &&& is_tree(v)
            &&& is_folder(v, components(destination))
            &&& below(v, components(destination)) == t
            &&& same_outside(w, v, components(destination))
        },
{
    let d = components(destination);
    let s = components(source);
    let rel = a.rel();
    let k = components(rel);
    let target = joined(destination, rel);
    law_join_appends(destination, rel);
    law_join_appends(source, rel);
    let here = below(w, d);
    let there = below(w, s);
    assert(here.contains_key(k) == w.contains_key(d + k));
    match a {
        Act::CreateDir(_) => {
            lemma_blocked_below(w, d, k);
            if !is_blocked(w, d + k) {
                lemma_dirs_below(w, d, k);
            }
        },
        Act::Delete(_, is_dir) => {
            lemma_removed_below(w, d, k);
        },
        _ => {
            let up = k.drop_last();
            lemma_blocked_below(w, d, up);
            lemma_components_are_parts(rel);
            assert(k[k.len() - 1] != seq![SLASH]) by {
                assert(seq![SLASH][0] == SLASH);
                let c = k[k.len() - 1];
                if c == seq![SLASH] {
                    assert(c.contains(c[0]));
                }
            }
            assert((d + k).last() == k.last());
            law_parent_components(target);
            let parent = parent_of(target).unwrap();
            assert((d + k).drop_last() =~= d + up);
            assert(components(parent) == d + up);
            if step(here, a, there) is Some {
                assert(there.contains_key(k));
                assert(w.contains_key(s + k));
                lemma_written_below(w, d, k, w[s + k]);
            }
        },
    }
}

/// Whether the paths of all entries of a scan are relative.
pub open spec fn all_relative(s: Seq<Entry>) -> bool {
    forall|i: int| #![trigger s[i]] 0 <= i < s.len() ==> is_relative(s[i].rel)
}

proof fn lemma_applied(w: Tree, acts: Seq<Act>, source: Seq<u8>, destination: Seq<u8>)
    requires
        is_tree(w),
        is_folder(w, components(destination)),
        source.len() > 0,
        destination.len() > 0,
        !overlap(source, destination),
        forall|i: int| #![trigger acts[i]] 0 <= i < acts.len() ==> is_relative(acts[i].rel()),
    ensures
        run(below(w, components(destination)), acts, below(w, components(source))) matches Some(
            t,
        ) ==> applied(w, acts, source, destination) matches Some(v) && {
            &&& is_tree(v)
            &&& is_folder(v, components(destination))
            &&& below(v, components(destination)) == t
            &&& same_outside(w, v, components(destination))
        },
    decreases acts.len(),
{
    let d = components(destination);
    let s = components(source);
    if acts.len() > 0 && run(below(w, d), acts, below(w, s)) is Some {
        let front = acts.drop_last();
        assert forall|i: int| #![trigger front[i]] 0 <= i < front.len() implies is_relative(
            front[i].rel(),
        ) by {
            assert(front[i] == acts[i]);
        }
        lemma_applied(w, front, source, destination);
        let u = applied(w, front, source, destination).unwrap();
        lemma_other_folder(w, u, d, s);
        assert(acts[acts.len() - 1] == acts.last());
        lemma_performed(u, acts.last(), source, destination);
        let v = performed(u, op_for(acts.last(), source, destination)).unwrap();
        assert forall|k: Seq<Seq<u8>>|
            #![trigger w.contains_key(k)]
            #![trigger v.contains_key(k)]
            !d.is_prefix_of(k) implies w.contains_key(k) == v.contains_key(k) && (w.contains_key(k)
            ==> w[k] == v[k]) by {
            assert(w.contains_key(k) == u.contains_key(k));
        }
    }
}

/// Applying a plan makes the destination a mirror of the source and changes nothing else:
/// no operation is refused, what lies below the destination afterwards is what the
/// mirror has, and all that lies elsewhere, the source above all, is as it was.
///
/// `w` is the file system before, `s` and `d` are scans of the two folders, and `acts`
/// is any list that is ordered as a plan is and holds what a plan holds.
#[verifier::rlimit(40)]
pub proof fn law_applied_plans_mirror(
    w: Tree,
    s: Seq<Entry>,
    d: Seq<Entry>,
    digests: Seq<DigestPair>,
    delete_extras: bool,
    acts: Seq<Act>,
    source: Seq<u8>,
    destination: Seq<u8>,
)
    requires
        is_tree(w),
        is_folder(w, components(destination)),
        source.len() > 0,
        destination.len() > 0,
        !overlap(source, destination),
        all_relative(s),
        all_relative(d),
        describes(s, below(w, components(source))),
        describes(d, below(w, components(destination))),
        telling(digests, below(w, components(source)), below(w, components(destination))),
        apply_ordered(acts),
        forall|a: Act| #[trigger]
            acts.contains(a) <==> planned(s, d, digests, delete_extras).contains(a),
    ensures
        applied(w, acts, source, destination) matches Some(v) && {
            &&& below(v, components(destination)) == mirrored(
                below(w, components(source)),
                below(w, components(destination)),
                delete_extras,
            )
            &&& below(v, components(source)) == below(w, components(source))
            &&& same_outside(w, v, components(destination))
        },
{
    let from = components(source);
    let to = components(destination);
    lemma_below_is_tree(w, from);
    lemma_below_is_tree(w, to);
    law_plan_mirrors(s, d, digests, delete_extras, below(w, from), below(w, to), acts);
    let driven = from_source(s, d, digests);
    let all = planned(s, d, digests, delete_extras);
    assert forall|i: int| #![trigger acts[i]] 0 <= i < acts.len() implies is_relative(
        acts[i].rel(),
    ) by {
        let a = acts[i];
        assert(acts.contains(a));
        let j = choose|j: int| 0 <= j < all.len() && all[j] == a;
        if j < driven.len() {
            lemma_from_source_member(s, d, digests, j);
            let m = choose|m: int|
                0 <= m < s.len() && actions_at(#[trigger] s[m], d, digests).contains(driven[j]);
            assert(a.rel() == s[m].rel);
        } else {
            lemma_extras_member(s, d, j - driven.len());
            assert(all[j] == extras(s, d)[j - driven.len()]);
        }
    }
    lemma_applied(w, acts, source, destination);
    let v = applied(w, acts, source, destination).unwrap();
    lemma_other_folder(w, v, to, from);
}

/// Where something met lies, relative to the root.
pub open spec fn location(root: Seq<u8>, f: Found) -> Seq<Seq<u8>> {
    components(f.path@).skip(components(root).len() as int)
}

/// Whether what was met below a root is a tree, node by node: each directory and each
/// file with its length, nothing that is not there, links aside, and nothing left out.
pub open spec fn lists(root: Seq<u8>, found: Seq<Found>, t: Tree) -> bool {
    &&& all_below(root, found)
    &&& forall|i: int|
        #![trigger found[i]]
        0 <= i < found.len() && !found[i].is_symlink ==> t.contains_key(location(root, found[i]))
            && match t[location(root, found[i])] {
            Node::Dir => found[i].is_dir,
            Node::File(contents) => !found[i].is_dir && found[i].len == contents.len(),
        }
    &&& forall|k: Seq<Seq<u8>>| #[trigger]
        t.contains_key(k) ==> exists|i: int|
            0 <= i < found.len() && !(#[trigger] found[i]).is_symlink && location(root, found[i])
                == k
}

/// The last thing met at a place is met at that place.
proof fn lemma_latest_at(root: Seq<u8>, found: Seq<Found>, i: int) -> (j: int)
    requires
        0 <= i < found.len(),
        !found[i].is_symlink,
    ensures
        i <= j < found.len(),
        !found[j].is_symlink,
        same_path(found[j].path@, found[i].path@),
        is_latest(found, j),
    decreases found.len() - i,
{
    if is_latest(found, i) {
        i
    } else {
        let k = choose|k: int|
            #![trigger found[k]]
            i < k < found.len() && !found[k].is_symlink && same_path(
                found[k].path@,
                found[i].path@,
            );
        lemma_latest_at(root, found, k)
    }
}

proof fn lemma_location(root: Seq<u8>, rel: Seq<u8>, f: Found)
    requires
        root.len() > 0,
        is_relative(rel),
        same_path(joined(root, rel), f.path@),
    ensures
        components(rel) == location(root, f),
{
    law_join_appends(root, rel);
    let r = components(root);
    assert((r + components(rel)).skip(r.len() as int) =~= components(rel));
}

/// A scan of what was met describes the tree that was walked: a file or directory of the
/// tree, be it empty, is in the scan with its size, and nothing else is.
pub proof fn law_scans_describe_what_was_walked(root: Seq<u8>, found: Seq<Found>, t: Tree)
    requires
        root.len() > 0,
        lists(root, found, t),
    ensures
        describes(scanned(root, found), t),
        all_relative(scanned(root, found)),
{
    let s = scanned(root, found);
    law_scans_are_complete(root, found);
    law_scanned_paths_are_relative(root, found);
    assert forall|j: int| #![trigger s[j]] 0 <= j < s.len() implies t.contains_key(key(s[j]))
        && fits(s[j], t[key(s[j])]) by {
        assert(is_met(root, found, s[j]));
        let i = choose|i: int|
            0 <= i < found.len() && !(#[trigger] found[i]).is_symlink && is_latest(found, i)
                && records(s[j], found[i], root);
        lemma_location(root, s[j].rel, found[i]);
    }
    assert forall|k: Seq<Seq<u8>>| #[trigger] t.contains_key(k) implies lookup(s, k) is Some by {
        let i = choose|i: int|
            0 <= i < found.len() && !(#[trigger] found[i]).is_symlink && location(root, found[i])
                == k;
        let l = lemma_latest_at(root, found, i);
        assert(found[l].path@ == found[l].path@);
        let j = choose|j: int| 0 <= j < s.len() && records(#[trigger] s[j], found[l], root);
        lemma_location(root, s[j].rel, found[l]);
        assert(location(root, found[l]) == location(root, found[i]));
        lemma_position(s, k);
    }
}

/// Whether digests were taken of the contents of all files that two trees both have with
/// the same size, and no two of those contents share a digest without being the same.
pub open spec fn taken_from(digests: Seq<DigestPair>, source: Tree, destination: Tree) -> bool {
    &&& forall|k: Seq<Seq<u8>>|
        #![trigger source.contains_key(k), destination.contains_key(k)]
        source.contains_key(k) && destination.contains_key(k) ==> match (
            source[k],
            destination[k],
        ) {
            (Node::File(a), Node::File(b)) => a.len() == b.len() ==> has_digests(digests, k) && (
            blake3_digest(a) == blake3_digest(b) ==> a == b),
            _ => true,
        }
    &&& forall|n: int|
        #![trigger digests[n]]
        0 <= n < digests.len() ==> {
            let k = components(digests[n].rel_path@);
            source.contains_key(k) && destination.contains_key(k) ==> match (
                source[k],
                destination[k],
            ) {
                (Node::File(a), Node::File(b)) => digests[n].source@ == blake3_digest(a)
                    && digests[n].destination@ == blake3_digest(b),
                _ => true,
            }
        }
}

/// Digests of the contents tell which files differ.
pub proof fn law_digests_tell(digests: Seq<DigestPair>, source: Tree, destination: Tree)
    requires
        taken_from(digests, source, destination),
    ensures
        telling(digests, source, destination),
{
    assert forall|k: Seq<Seq<u8>>|
        #![trigger verdict(digests, k)]
        source.contains_key(k) && destination.contains_key(k) implies match (
        source[k],
        destination[k],
    ) {
        (Node::File(a), Node::File(b)) => a.len() == b.len() ==> verdict(digests, k) == Some(
            a != b,
        ),
        _ => true,
    } by {
        law_digests_settle(digests, k);
    }
}

/// A sync does what it is for. Both folders are walked, what was met is scanned, files of
/// the same size are hashed, and the plan that comes of it is applied: then the
/// destination holds every directory and file of the source with the same contents, what
/// only it had is kept or, on request, gone, and nothing outside it has changed.
#[verifier::rlimit(40)]
pub proof fn law_syncs_mirror_the_source(
    w: Tree,
    source_root: Seq<u8>,
    source_found: Seq<Found>,
    destination_root: Seq<u8>,
    destination_found: Seq<Found>,
    digests: Seq<DigestPair>,
    delete_extras: bool,
    acts: Seq<Act>,
    source: Seq<u8>,
    destination: Seq<u8>,
)
    requires
        is_tree(w),
        is_folder(w, components(destination)),
        source.len() > 0,
        destination.len() > 0,
        source_root.len() > 0,
        destination_root.len() > 0,
        !overlap(source, destination),
        lists(source_root, source_found, below(w, components(source))),
        lists(destination_root, destination_found, below(w, components(destination))),
        taken_from(digests, below(w, components(source)), below(w, components(destination))),
        apply_ordered(acts),
        forall|a: Act| #[trigger]
            acts.contains(a) <==> planned(
                scanned(source_root, source_found),
                scanned(destination_root, destination_found),
                digests,
                delete_extras,
            ).contains(a),
    ensures
        applied(w, acts, source, destination) matches Some(v) && {
            let from = below(w, components(source));
            let before = below(w, components(destination));
            let after = below(v, components(destination));
            &&& forall|k: Seq<Seq<u8>>| #[trigger]
                from.contains_key(k) ==> after.contains_key(k) && after[k] == from[k]
            &&& delete_extras ==> after == from
            &&& forall|k: Seq<Seq<u8>>| #[trigger]
                after.contains_key(k) && !from.contains_key(k) ==> before.contains_key(k)
                    && after[k] == before[k]
            &&& !delete_extras ==> forall|k: Seq<Seq<u8>>| #[trigger]
                before.contains_key(k) && !from.contains_key(k) && !(exists|n: int|
                    #![trigger k.take(n)]
                    0 < n < k.len() && from.contains_key(k.take(n)) && from[k.take(n)] is File)
                    ==> after.contains_key(k)
            &&& below(v, components(source)) == from
            &&& same_outside(w, v, components(destination))
        },
{
    let from = below(w, components(source));
    let to = below(w, components(destination));
    law_scans_describe_what_was_walked(source_root, source_found, from);
    law_scans_describe_what_was_walked(destination_root, destination_found, to);
    law_digests_tell(digests, from, to);
    law_applied_plans_mirror(
        w,
        scanned(source_root, source_found),
        scanned(destination_root, destination_found),
        digests,
        delete_extras,
        acts,
        source,
        destination,
    );
    assert(delete_extras ==> mirrored(from, to, delete_extras) =~= from);
}

} // verus!
