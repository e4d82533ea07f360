//! Where paths really lie. The file system resolves links and `..` only for what
//! exists; for anything else the longest existing part of the path is resolved and
//! the rest is put back behind it.

use vstd::prelude::*;

use crate::path::{
    body_components, climbs, components, deep, is_part, is_rooted, is_within, joined,
    law_parent_components, law_stripped_components, lemma_body_components_are_parts,
    lemma_components_are_parts, lemma_part_joins, lemma_root_components, lemma_rooted_parent,
    parent_dir, parent_of, path_bytes, same_path, stripped, PathBuf, DOT, SLASH,
};

verus! {

/// A path and what the file system resolves it to, or why it does not.
#[derive(Debug)]
pub struct Located {
    pub path: PathBuf,
    pub canonical: Result<PathBuf, String>,
}

impl Located {
    /// What the path is resolved to, or why it is not, as plain values.
    pub open spec fn at(self) -> Result<Seq<u8>, Seq<char>> {
        match self.canonical {
            Ok(p) => Ok(p@),
            Err(why) => Err(why@),
        }
    }
}

/// A path and where it really lies.
#[derive(Debug)]
pub struct Place {
    pub path: PathBuf,
    pub resolved: PathBuf,
}

/// What a [`Place`] says, as plain bytes.
pub struct PlaceModel {
    pub path: Seq<u8>,
    pub resolved: Seq<u8>,
}

impl View for Place {
    type V = PlaceModel;

    open spec fn view(&self) -> PlaceModel {
        PlaceModel { path: self.path@, resolved: self.resolved@ }
    }
}

/// What the places of a list say.
pub open spec fn places(s: Seq<Place>) -> Seq<PlaceModel> {
    s.map_values(|p: Place| p@)
}

impl Clone for Place {
    fn clone(&self) -> (res: Place)
        ensures
            res@ == self@,
    {
        Place { path: self.path.clone(), resolved: self.resolved.clone() }
    }
}

/// The bytes of an optional path.
pub open spec fn bytes_in(p: Option<PathBuf>) -> Option<Seq<u8>> {
    match p {
        Some(q) => Some(q@),
        None => None,
    }
}

/// The path itself, its parent, the parent of that, and so on.
pub open spec fn ancestors_of(p: Seq<u8>) -> Seq<Seq<u8>>
    decreases p.len(),
    via ancestors_decreases
{
    match parent_of(p) {
        Some(a) => seq![p] + ancestors_of(a),
        None => seq![p],
    }
}

#[via_fn]
proof fn ancestors_decreases(p: Seq<u8>) {
    law_parent_components(p);
}

/// Where walking along `parts` from `base` leads: `..` goes one level up (from the root
/// nowhere), `.` stays, and any other part goes down.
pub open spec fn walked(base: Seq<u8>, parts: Seq<Seq<u8>>) -> Seq<u8>
    decreases parts.len(),
{
    if parts.len() == 0 {
        base
    } else {
        let at = walked(base, parts.drop_last());
        if parts.last() == parent_dir() {
            match parent_of(at) {
                Some(up) => up,
                None => at,
            }
        } else if parts.last() == seq![DOT] {
            at
        } else {
            joined(at, parts.last())
        }
    }
}

/// `rel` looked up from `base`, with every `.` and `..` in it gone along with what it
/// takes back. An absolute `rel` is looked up from the root.
pub open spec fn folded(base: Seq<u8>, rel: Seq<u8>) -> Seq<u8> {
    if is_rooted(rel) {
        walked(seq![SLASH], components(rel).skip(1))
    } else {
        walked(base, components(rel))
    }
}

/// `p` resolved by the first of its ancestors, from `i` on, that the file system
/// could resolve, with the rest of `p` folded behind it; `p` folded behind the working
/// directory `cwd` where it could resolve none.
pub open spec fn resolved_from(
    p: Seq<u8>,
    canonical: Seq<Option<PathBuf>>,
    cwd: Seq<u8>,
    i: int,
) -> Seq<u8>
    decreases canonical.len() - i,
{
    if i < 0 || i >= canonical.len() || i >= ancestors_of(p).len() {
        folded(cwd, p)
    } else {
        match canonical[i] {
            Some(c) => folded(
                c@,
                match stripped(p, ancestors_of(p)[i]) {
                    Some(rest) => rest,
                    None => Seq::empty(),
                },
            ),
            None => resolved_from(p, canonical, cwd, i + 1),
        }
    }
}

/// The path `p`, its parent, the parent of that, and so on.
pub fn ancestors(p: &PathBuf) -> (res: Vec<PathBuf>)
    ensures
        path_bytes(res@) == ancestors_of(p@),
{
    let mut out: Vec<PathBuf> = Vec::new();
    let mut current = p.clone();
    assert(path_bytes(out@) =~= Seq::empty());
    assert(Seq::<Seq<u8>>::empty() + ancestors_of(p@) =~= ancestors_of(p@));
    loop
        invariant
            path_bytes(out@) + ancestors_of(current@) == ancestors_of(p@),
        decreases current@.len(),
    {
        let ghost before = path_bytes(out@);
        let next = current.parent();
        proof {
            law_parent_components(current@);
            assert(path_bytes(out@.push(current)) =~= before.push(current@));
            if next is Some {
                assert(before + ancestors_of(current@) =~= before.push(current@) + ancestors_of(
                    next.unwrap()@,
                ));
            } else {
                assert(before + ancestors_of(current@) =~= before.push(current@));
            }
        }
        out.push(current);
        match next {
            Some(a) => {
                current = a;
            },
            None => {
                return out;
            },
        }
    }
}

/// Where walking along `parts`, from `from` on, leads from `base`.
fn walk(base: PathBuf, parts: &Vec<Vec<u8>>, from: usize) -> (res: PathBuf)
    requires
        from <= parts@.len(),
    ensures
        res@ == walked(base@, deep(parts@).skip(from as int)),
{
    let ghost all = deep(parts@).skip(from as int);
    let mut at = base;
    assert(all.take(0) =~= Seq::empty());
    for i in from..parts.len()
        invariant
            from <= parts@.len(),
            all == deep(parts@).skip(from as int),
            at@ == walked(base@, all.take(i - from)),
    {
        let part = &parts[i];
        proof {
            let n = i - from;
            assert(all[n] == part@);
            assert(all.take(n + 1).drop_last() =~= all.take(n));
            assert(all.take(n + 1).last() == part@);
        }
        if part.len() == 2 && part[0] == DOT && part[1] == DOT {
            assert(part@ =~= parent_dir());
            if let Some(up) = at.parent() {
                at = up;
            }
        } else if part.len() == 1 && part[0] == DOT {
            assert(part@ =~= seq![DOT]);
        } else {
            at = at.join(&PathBuf::from_bytes(part.clone()));
        }
    }
    assert(deep(parts@).len() == parts@.len());
    assert(all.take(parts@.len() - from) =~= all);
    at
}

fn fold(base: &PathBuf, rel: &PathBuf) -> (res: PathBuf)
    ensures
        res@ == folded(base@, rel@),
{
    let parts = rel.components();
    assert(deep(parts@).len() == parts@.len());
    if rel.is_absolute() {
        let mut slash: Vec<u8> = Vec::new();
        slash.push(SLASH);
        assert(slash@ =~= seq![SLASH]);
        walk(PathBuf::from_bytes(slash), &parts, 1)
    } else {
        assert(deep(parts@).skip(0) =~= deep(parts@));
        walk(base.clone(), &parts, 0)
    }
}

/// The longest part of `p` that exists, resolved, with the rest of `p` behind it and
/// every `.` and `..` in that gone; a relative path of which nothing exists lies below
/// the working directory `cwd`. `canonical` says for each of the [`ancestors`] of `p`
/// what the file system resolves it to.
pub fn resolved_abs(p: &PathBuf, canonical: &Vec<Option<PathBuf>>, cwd: &PathBuf) -> (res:
    PathBuf)
    ensures
        res@ == resolved_from(p@, canonical@, cwd@, 0),
{
    let all = ancestors(p);
    let mut i: usize = 0;
    while i < canonical.len() && i < all.len()
        invariant
            path_bytes(all@) == ancestors_of(p@),
            i <= canonical@.len(),
            resolved_from(p@, canonical@, cwd@, 0) == resolved_from(
                p@,
                canonical@,
                cwd@,
                i as int,
            ),
        decreases canonical@.len() - i,
    {
        if let Some(c) = &canonical[i] {
            assert(path_bytes(all@)[i as int] == all@[i as int]@);
            return match p.strip_prefix(&all[i]) {
                Some(rest) => fold(c, &rest),
                None => fold(c, &PathBuf::from_bytes(Vec::new())),
            };
        }
        i += 1;
    }
    assert(path_bytes(all@).len() == all@.len());
    fold(cwd, p)
}

/// Every ancestor of a path contains it.
pub proof fn law_ancestors_contain(p: Seq<u8>, i: int)
    requires
        0 <= i < ancestors_of(p).len(),
    ensures
        is_within(p, ancestors_of(p)[i]),
    decreases p.len(),
{
    law_parent_components(p);
    let c = components(p);
    assert(c.subrange(0, c.len() as int) =~= c);
    if i > 0 {
        let a = parent_of(p).unwrap();
        law_ancestors_contain(a, i - 1);
        let x = components(ancestors_of(a)[i - 1]);
        assert(ancestors_of(p)[i] == ancestors_of(a)[i - 1]);
        assert(c.subrange(0, x.len() as int) =~= components(a).subrange(0, x.len() as int));
    }
}

/// Whether a path starts at the root and goes nowhere up.
pub open spec fn is_plain(p: Seq<u8>) -> bool {
    is_rooted(p) && !climbs(p)
}

proof fn lemma_walked(base: Seq<u8>, parts: Seq<Seq<u8>>)
    requires
        is_plain(base),
        forall|k: int|
            #![trigger parts[k]]
            0 <= k < parts.len() ==> is_part(parts[k]) || parts[k] == seq![DOT],
    ensures
        is_plain(walked(base, parts)),
    decreases parts.len(),
{
    if parts.len() > 0 {
        let front = parts.drop_last();
        assert forall|k: int|
            #![trigger front[k]]
            0 <= k < front.len() implies is_part(front[k]) || front[k] == seq![DOT] by {
            assert(front[k] == parts[k]);
        }
        lemma_walked(base, front);
        let at = walked(base, front);
        let last = parts.last();
        assert(last == parts[parts.len() - 1]);
        if last == parent_dir() {
            if let Some(up) = parent_of(at) {
                law_parent_components(at);
                lemma_rooted_parent(at);
                assert(!climbs(up)) by {
                    if components(up).contains(parent_dir()) {
                        let k = choose|k: int|
                            0 <= k < components(up).len() && components(up)[k] == parent_dir();
                        assert(components(at)[k] == parent_dir());
                    }
                }
            }
        } else if last != seq![DOT] {
            lemma_part_joins(at, last);
            let out = joined(at, last);
            assert(out[0] == at[0]);
            assert(!climbs(out)) by {
                if components(out).contains(parent_dir()) {
                    let k = choose|k: int|
                        0 <= k < components(out).len() && components(out)[k] == parent_dir();
                    assert(components(at)[k] == parent_dir());
                }
            }
        }
    }
}

proof fn lemma_folded(base: Seq<u8>, rel: Seq<u8>)
    requires
        is_plain(base),
    ensures
        is_plain(folded(base, rel)),
{
    lemma_components_are_parts(rel);
    let c = components(rel);
    if is_rooted(rel) {
        let root = seq![SLASH];
        let parts = c.skip(1);
        assert(!climbs(root)) by {
            lemma_components_are_parts(root);
            lemma_root_components();
        }
        assert forall|k: int|
            #![trigger parts[k]]
            0 <= k < parts.len() implies is_part(parts[k]) || parts[k] == seq![DOT] by {
            assert(parts[k] == c[k + 1]);
        }
        lemma_walked(root, parts);
    } else {
        assert forall|k: int|
            #![trigger c[k]]
            0 <= k < c.len() implies is_part(c[k]) || c[k] == seq![DOT] by {}
        lemma_walked(base, c);
    }
}

/// What is resolved goes nowhere up: no `..` is left behind the part that exists, so
/// that two resolved paths can be held against each other name by name.
pub proof fn law_resolved_paths_are_plain(
    p: Seq<u8>,
    canonical: Seq<Option<PathBuf>>,
    cwd: Seq<u8>,
    i: int,
)
    requires
        is_plain(cwd),
        forall|k: int|
            #![trigger canonical[k]]
            0 <= k < canonical.len() && canonical[k] is Some ==> is_plain(canonical[k]->0@),
    ensures
        is_plain(resolved_from(p, canonical, cwd, i)),
    decreases canonical.len() - i,
{
    if i < 0 || i >= canonical.len() || i >= ancestors_of(p).len() {
        lemma_folded(cwd, p);
    } else {
        match canonical[i] {
            Some(c) => {
                let rest = match stripped(p, ancestors_of(p)[i]) {
                    Some(rest) => rest,
                    None => Seq::empty(),
                };
                lemma_folded(c@, rest);
            },
            None => law_resolved_paths_are_plain(p, canonical, cwd, i + 1),
        }
    }
}

/// Going down and up again leads back.
pub proof fn law_up_takes_back(base: Seq<u8>, parts: Seq<Seq<u8>>, name: Seq<u8>)
    requires
        walked(base, parts).len() > 0,
        is_part(name),
        name != parent_dir(),
    ensures
        same_path(walked(base, parts.push(name).push(parent_dir())), walked(base, parts)),
{
    let at = walked(base, parts);
    let down = parts.push(name);
    assert(down.drop_last() =~= parts);
    assert(down.push(parent_dir()).drop_last() =~= down);
    lemma_part_joins(at, name);
    let there = joined(at, name);
    assert(walked(base, down) == there);
    assert(components(there).last() == name);
    assert(name != seq![SLASH]) by {
        assert(seq![SLASH][0] == SLASH);
        if name == seq![SLASH] {
            assert(name.contains(name[0]));
        }
    }
    law_parent_components(there);
    assert(components(at).push(name).drop_last() =~= components(at));
}

/// What is known of where paths really lie.
#[derive(Debug)]
pub struct Resolver {
    pub known: Vec<Place>,
}

/// Where a path lies as far as it is known; the path itself where it is not.
pub open spec fn canonical_of(known: Seq<Place>, p: Seq<u8>) -> Seq<u8>
    decreases known.len(),
{
    if known.len() == 0 {
        p
    } else if same_path(known.last().path@, p) {
        known.last().resolved@
    } else {
        canonical_of(known.drop_last(), p)
    }
}

impl Resolver {
    /// A resolver that knows nothing.
    pub fn new() -> (res: Resolver)
        ensures
            res.known@.len() == 0,
    {
        Resolver { known: Vec::new() }
    }

    /// Where `p` lies as far as it is known; `p` itself where it is not.
    pub fn canonical(&self, p: &PathBuf) -> (res: PathBuf)
        ensures
            res@ == canonical_of(self.known@, p@),
    {
        let mut i: usize = self.known.len();
        assert(self.known@.take(i as int) =~= self.known@);
        while i > 0
            invariant
                i <= self.known@.len(),
                canonical_of(self.known@, p@) == canonical_of(self.known@.take(i as int), p@),
            decreases i,
        {
            i -= 1;
            assert(self.known@.take(i + 1).drop_last() =~= self.known@.take(i as int));
            assert(self.known@.take(i + 1).last() == self.known@[i as int]);
            if self.known[i].path.same(p) {
                return self.known[i].resolved.clone();
            }
        }
        p.clone()
    }
}

/// A path whose missing part holds no dots lies below the part that exists, name by name.
pub proof fn law_missing_parts_lie_below_what_exists(
    p: Seq<u8>,
    canonical: Seq<Option<PathBuf>>,
    cwd: Seq<u8>,
    i: int,
)
    requires
        0 <= i < canonical.len(),
        i < ancestors_of(p).len(),
        ancestors_of(p)[i].len() > 0,
        forall|k: int| 0 <= k < i ==> (#[trigger] canonical[k]) is None,
        canonical[i] is Some,
        canonical[i]->0@.len() > 0,
        !components(p).skip(components(ancestors_of(p)[i]).len() as int).contains(parent_dir()),
    ensures
        components(resolved_from(p, canonical, cwd, 0)) == components(canonical[i]->0@)
            + components(p).skip(components(ancestors_of(p)[i]).len() as int),
{
    lemma_resolved_at(p, canonical, cwd, 0, i);
    law_ancestors_contain(p, i);
    let a = ancestors_of(p)[i];
    law_stripped_components(p, a);
    let rel = stripped(p, a)->0;
    let c = canonical[i]->0@;
    let parts = components(rel);
    lemma_components_are_parts(rel);
    assert forall|k: int| #![trigger parts[k]] 0 <= k < parts.len() implies is_part(parts[k])
        && parts[k] != parent_dir() by {
        if parts[k] == parent_dir() {
            assert(parts.contains(parts[k]));
        }
        assert(parts[k] == body_components(rel)[k]);
        lemma_body_components_are_parts(rel, k);
    }
    lemma_walked_down(c, parts);
}

proof fn lemma_resolved_at(
    p: Seq<u8>,
    canonical: Seq<Option<PathBuf>>,
    cwd: Seq<u8>,
    j: int,
    i: int,
)
    requires
        0 <= j <= i < canonical.len(),
        i < ancestors_of(p).len(),
        forall|k: int| j <= k < i ==> (#[trigger] canonical[k]) is None,
    ensures
        resolved_from(p, canonical, cwd, j) == resolved_from(p, canonical, cwd, i),
    decreases i - j,
{
    if j < i {
        assert(canonical[j] is None);
        lemma_resolved_at(p, canonical, cwd, j + 1, i);
    }
}

proof fn lemma_walked_down(base: Seq<u8>, parts: Seq<Seq<u8>>)
    requires
        base.len() > 0,
        forall|k: int|
            #![trigger parts[k]]
            0 <= k < parts.len() ==> is_part(parts[k]) && parts[k] != parent_dir(),
    ensures
        components(walked(base, parts)) == components(base) + parts,
        walked(base, parts).len() > 0,
    decreases parts.len(),
{
    if parts.len() > 0 {
        let front = parts.drop_last();
        assert forall|k: int| #![trigger front[k]] 0 <= k < front.len() implies is_part(front[k])
            && front[k] != parent_dir() by {
            assert(front[k] == parts[k]);
        }
        lemma_walked_down(base, front);
        let last = parts.last();
        assert(last == parts[parts.len() - 1]);
        lemma_part_joins(walked(base, front), last);
        assert((components(base) + front).push(last) =~= components(base) + parts);
    } else {
        assert(components(base) + parts =~= components(base));
    }
}

/// A relative path of which nothing exists lies below the working directory; an absolute
/// one is where it says.
pub proof fn law_relative_paths_lie_in_the_working_directory(
    p: Seq<u8>,
    canonical: Seq<Option<PathBuf>>,
    cwd: Seq<u8>,
)
    requires
        canonical.len() == ancestors_of(p).len(),
        forall|k: int| 0 <= k < canonical.len() ==> (#[trigger] canonical[k]) is None,
    ensures
        !is_rooted(p) ==> resolved_from(p, canonical, cwd, 0) == walked(cwd, components(p)),
        is_rooted(p) ==> resolved_from(p, canonical, cwd, 0) == walked(
            seq![SLASH],
            components(p).skip(1),
        ),
{
    lemma_unresolved(p, canonical, cwd, 0);
}

proof fn lemma_unresolved(p: Seq<u8>, canonical: Seq<Option<PathBuf>>, cwd: Seq<u8>, i: int)
    requires
        0 <= i <= canonical.len(),
        canonical.len() == ancestors_of(p).len(),
        forall|k: int| 0 <= k < canonical.len() ==> (#[trigger] canonical[k]) is None,
    ensures
        resolved_from(p, canonical, cwd, i) == folded(cwd, p),
    decreases canonical.len() - i,
{
    if i < canonical.len() {
        assert(canonical[i] is None);
        lemma_unresolved(p, canonical, cwd, i + 1);
    }
}

/// Where a path lies is what is known of it last, and the path itself where nothing is.
pub proof fn law_known_places_are_found(known: Seq<Place>, p: Seq<u8>)
    ensures
        (forall|i: int| 0 <= i < known.len() ==> !same_path((#[trigger] known[i]).path@, p))
            ==> canonical_of(known, p) == p,
        forall|i: int|
            #![trigger known[i]]
            0 <= i < known.len() && same_path(known[i].path@, p) && (forall|k: int|
                i < k < known.len() ==> !same_path((#[trigger] known[k]).path@, p))
                ==> canonical_of(known, p) == known[i].resolved@,
    decreases known.len(),
{
    if known.len() > 0 {
        let front = known.drop_last();
        law_known_places_are_found(front, p);
        assert(known[known.len() - 1] == known.last());
        if !same_path(known.last().path@, p) {
            if forall|i: int| 0 <= i < known.len() ==> !same_path((#[trigger] known[i]).path@, p) {
                assert forall|i: int| 0 <= i < front.len() implies !same_path(
                    (#[trigger] front[i]).path@,
                    p,
                ) by {
                    assert(front[i] == known[i]);
                }
            }
            assert forall|i: int|
                #![trigger known[i]]
                0 <= i < known.len() && same_path(known[i].path@, p) && (forall|k: int|
                    i < k < known.len() ==> !same_path((#[trigger] known[k]).path@, p)) implies
                canonical_of(known, p) == known[i].resolved@ by {
                assert(front[i] == known[i]);
                assert forall|k: int| i < k < front.len() implies !same_path(
                    (#[trigger] front[k]).path@,
                    p,
                ) by {
                    assert(front[k] == known[k]);
                }
            }
        }
    }
}

/// On the way along a path `.` stays, and `..` at the root leads nowhere.
pub proof fn law_dots_stay(base: Seq<u8>, parts: Seq<Seq<u8>>)
    ensures
        walked(base, parts.push(seq![DOT])) == walked(base, parts),
        walked(seq![SLASH], seq![parent_dir()]) == seq![SLASH],
        walked(base, Seq::empty()) == base,
{
    assert(parts.push(seq![DOT]).drop_last() =~= parts);
    assert(seq![DOT] != parent_dir()) by {
        assert(seq![DOT].len() == 1 && parent_dir().len() == 2);
    }
    let up = seq![parent_dir()];
    assert(up.drop_last() =~= Seq::empty());
    lemma_root_components();
    assert(walked(seq![SLASH], up.drop_last()) == seq![SLASH]);
    assert(components(seq![SLASH]).last() == seq![SLASH]);
}

/// The ancestors of a path begin with the path itself; each is the parent of the one
/// before, and the last has none.
pub proof fn law_ancestors_go_up(p: Seq<u8>, i: int)
    requires
        0 <= i < ancestors_of(p).len(),
    ensures
        ancestors_of(p)[0] == p,
        i + 1 < ancestors_of(p).len() ==> parent_of(ancestors_of(p)[i]) == Some(
            ancestors_of(p)[i + 1],
        ),
        i + 1 == ancestors_of(p).len() ==> parent_of(ancestors_of(p)[i]) is None,
    decreases p.len(),
{
    law_parent_components(p);
    if parent_of(p) is Some {
        let a = parent_of(p)->0;
        let all = ancestors_of(p);
        assert(all == seq![p] + ancestors_of(a));
        if i > 0 {
            law_ancestors_go_up(a, i - 1);
            assert(all[i] == ancestors_of(a)[i - 1]);
            if i + 1 < all.len() {
                assert(all[i + 1] == ancestors_of(a)[i]);
            }
        } else {
            law_ancestors_go_up(a, 0);
            assert(all[1] == ancestors_of(a)[0]);
        }
    }
}

} // verus!
