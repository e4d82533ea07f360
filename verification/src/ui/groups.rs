//! The files mapped into a destination, grouped by the folder of their source.

use vstd::prelude::*;

use crate::path::{
    components, file_name_of, lemma_key_order, lemma_key_order_transitive, parent_of, path_order,
    stripped, Order, PathBuf,
};
use crate::store::{links, Link, Mapping};

verus! {

/// A mapped file: the name of its source, and where it lies in the destination.
#[derive(Debug)]
pub struct MappedFile {
    pub name: PathBuf,
    pub rel: PathBuf,
}

/// What a [`MappedFile`] says.
pub struct FileModel {
    pub name: Seq<u8>,
    pub rel: Seq<u8>,
}

impl View for MappedFile {
    type V = FileModel;

    open spec fn view(&self) -> FileModel {
        FileModel { name: self.name@, rel: self.rel@ }
    }
}

/// The mapped files whose sources lie in one folder.
#[derive(Debug)]
pub struct Group {
    pub folder: PathBuf,
    pub files: Vec<MappedFile>,
}

/// What a [`Group`] says.
pub struct GroupModel {
    pub folder: Seq<u8>,
    pub files: Seq<FileModel>,
}

/// What the files of a list say.
pub open spec fn files_view(s: Seq<MappedFile>) -> Seq<FileModel> {
    s.map_values(|f: MappedFile| f@)
}

impl View for Group {
    type V = GroupModel;

    open spec fn view(&self) -> GroupModel {
        GroupModel { folder: self.folder@, files: files_view(self.files@) }
    }
}

/// What the groups of a list say.
pub open spec fn groups_view(s: Seq<Group>) -> Seq<GroupModel> {
    s.map_values(|g: Group| g@)
}

/// `files`, in order of location, with one more; after those at the same location.
pub open spec fn with_file(files: Seq<FileModel>, f: FileModel) -> Seq<FileModel>
    decreases files.len(),
{
    if files.len() == 0 || path_order(files.last().rel, f.rel) != Order::Greater {
        files.push(f)
    } else {
        with_file(files.drop_last(), f).push(files.last())
    }
}

/// `groups`, in order of folder, with one more file.
pub open spec fn with_row(groups: Seq<GroupModel>, folder: Seq<u8>, f: FileModel) -> Seq<GroupModel>
    decreases groups.len(),
{
    if groups.len() == 0 {
        seq![GroupModel { folder, files: seq![f] }]
    } else {
        let last = groups.last();
        match path_order(last.folder, folder) {
            Order::Less => groups.push(GroupModel { folder, files: seq![f] }),
            Order::Equal => groups.drop_last().push(
                GroupModel { folder: last.folder, files: with_file(last.files, f) },
            ),
            Order::Greater => with_row(groups.drop_last(), folder, f).push(last),
        }
    }
}

/// The folder of a source file; empty for one at the root.
pub open spec fn folder_of(source_rel: Seq<u8>) -> Seq<u8> {
    match parent_of(source_rel) {
        Some(p) => p,
        None => Seq::empty(),
    }
}

/// The name of a source file.
pub open spec fn name_of(source_rel: Seq<u8>) -> Seq<u8> {
    match file_name_of(source_rel) {
        Some(n) => n,
        None => source_rel,
    }
}

/// `groups` with the targets of a mapping that lie below `root`.
pub open spec fn with_targets(
    groups: Seq<GroupModel>,
    root: Seq<u8>,
    source_rel: Seq<u8>,
    targets: Seq<Seq<u8>>,
) -> Seq<GroupModel>
    decreases targets.len(),
{
    if targets.len() == 0 {
        groups
    } else {
        let rest = with_targets(groups, root, source_rel, targets.drop_last());
        match stripped(targets.last(), root) {
            Some(rel) => with_row(
                rest,
                folder_of(source_rel),
                FileModel { name: name_of(source_rel), rel },
            ),
            None => rest,
        }
    }
}

/// The files that mappings write below `root`, grouped by the folder of their source.
pub open spec fn grouped(mappings: Seq<Link>, root: Seq<u8>) -> Seq<GroupModel>
    decreases mappings.len(),
{
    if mappings.len() == 0 {
        Seq::empty()
    } else {
        with_targets(
            grouped(mappings.drop_last(), root),
            root,
            mappings.last().source_rel,
            mappings.last().targets,
        )
    }
}

fn insert_file(files: &mut Vec<MappedFile>, f: MappedFile)
    ensures
        files_view(final(files)@) == with_file(files_view(old(files)@), f@),
{
    let ghost all = files_view(files@);
    let mut i: usize = files.len();
    let ghost mut tail: Seq<FileModel> = Seq::empty();
    assert(all.take(i as int) =~= all);
    assert(with_file(all, f@) + tail =~= with_file(all, f@));
    while i > 0 && files[i - 1].rel.order(&f.rel) == Order::Greater
        invariant
            i <= files@.len(),
            *files == *old(files),
            all == files_view(files@),
            tail == all.skip(i as int),
            with_file(all, f@) == with_file(all.take(i as int), f@) + tail,
        ensures
            i <= files@.len(),
            *files == *old(files),
            all == files_view(files@),
            tail == all.skip(i as int),
            with_file(all, f@) == with_file(all.take(i as int), f@) + tail,
            i == 0 || path_order(all[i - 1].rel, f@.rel) != Order::Greater,
        decreases i,
    {
        proof {
            let front = all.take(i as int);
            assert(front.last() == files@[i - 1]@);
            assert(front.drop_last() =~= all.take(i - 1));
            assert(all.skip(i - 1) =~= seq![front.last()] + tail);
            assert(with_file(front, f@) + tail =~= with_file(all.take(i - 1), f@) + all.skip(i - 1));
            tail = all.skip(i - 1);
        }
        i -= 1;
    }
    proof {
        let front = all.take(i as int);
        if i > 0 {
            assert(front.last() == all[i - 1]);
        }
        assert(with_file(front, f@) == front.push(f@));
        assert(files_view(files@.insert(i as int, f)) =~= front.push(f@) + tail);
    }
    files.insert(i, f);
}

fn insert_row(groups: &mut Vec<Group>, folder: &PathBuf, f: MappedFile)
    ensures
        groups_view(final(groups)@) == with_row(groups_view(old(groups)@), folder@, f@),
{
    let ghost all = groups_view(groups@);
    let mut i: usize = groups.len();
    assert(all.take(i as int) =~= all);
    assert(all.skip(i as int) =~= Seq::empty());
    assert(with_row(all, folder@, f@) + Seq::<GroupModel>::empty() =~= with_row(all, folder@, f@));
    while i > 0 && groups[i - 1].folder.order(folder) == Order::Greater
        invariant
            i <= groups@.len(),
            *groups == *old(groups),
            all == groups_view(groups@),
            with_row(all, folder@, f@) == with_row(all.take(i as int), folder@, f@) + all.skip(
                i as int,
            ),
        ensures
            i <= groups@.len(),
            *groups == *old(groups),
            all == groups_view(groups@),
            with_row(all, folder@, f@) == with_row(all.take(i as int), folder@, f@) + all.skip(
                i as int,
            ),
            i == 0 || path_order(all[i - 1].folder, folder@) != Order::Greater,
        decreases i,
    {
        proof {
            let front = all.take(i as int);
            assert(front.last() == groups@[i - 1]@);
            assert(front.drop_last() =~= all.take(i - 1));
            assert(all.skip(i - 1) =~= seq![front.last()] + all.skip(i as int));
            assert(with_row(front, folder@, f@) + all.skip(i as int) =~= with_row(
                all.take(i - 1),
                folder@,
                f@,
            ) + all.skip(i - 1));
        }
        i -= 1;
    }
    let ghost front = all.take(i as int);
    if i > 0 {
        assert(front.last() == all[i - 1]);
        assert(all[i - 1] == groups@[i - 1]@);
        if groups[i - 1].folder.order(folder) == Order::Equal {
            proof {
                assert(front.drop_last() =~= all.take(i - 1));
            }
            let mut g = groups.remove(i - 1);
            insert_file(&mut g.files, f);
            groups.insert(i - 1, g);
            proof {
                let now = groups_view(groups@);
                assert(now =~= front.drop_last().push(g@) + all.skip(i as int));
            }
            return;
        }
    }
    let mut files: Vec<MappedFile> = Vec::new();
    files.push(f);
    assert(files_view(files@) =~= seq![f@]);
    let g = Group { folder: folder.clone(), files };
    proof {
        assert(with_row(front, folder@, f@) =~= front.push(g@));
        assert(groups_view(groups@.insert(i as int, g)) =~= front.push(g@) + all.skip(i as int));
    }
    groups.insert(i, g);
}

/// The files that `mappings` write below `root`, grouped by the folder of their source:
/// folders in order, and in each the files in order of their location below `root`.
pub fn group_mappings(mappings: &Vec<Mapping>, root: &PathBuf) -> (res: Vec<Group>)
    ensures
        groups_view(res@) == grouped(links(mappings@), root@),
{
    let ghost all = links(mappings@);
    let mut groups: Vec<Group> = Vec::new();
    assert(groups_view(groups@) =~= Seq::empty());
    for i in 0..mappings.len()
        invariant
            all == links(mappings@),
            groups_view(groups@) == grouped(all.take(i as int), root@),
    {
        let m = &mappings[i];
        let folder = match m.source_rel.parent() {
            Some(p) => p,
            None => PathBuf::from_bytes(Vec::new()),
        };
        let name = match m.source_rel.file_name() {
            Some(n) => PathBuf::from_bytes(n),
            None => m.source_rel.clone(),
        };
        assert(folder@ =~= folder_of(m.source_rel@));
        assert(name@ =~= name_of(m.source_rel@));
        let ghost before = groups_view(groups@);
        let ghost targets = m@.targets;
        proof {
            assert(all.take(i + 1).drop_last() =~= all.take(i as int));
            assert(all.take(i + 1).last() == m@);
        }
        for j in 0..m.targets.len()
            invariant
                targets == m@.targets,
                folder@ == folder_of(m.source_rel@),
                name@ == name_of(m.source_rel@),
                groups_view(groups@) == with_targets(
                    before,
                    root@,
                    m.source_rel@,
                    targets.take(j as int),
                ),
        {
            assert(targets.take(j + 1).drop_last() =~= targets.take(j as int));
            assert(targets.take(j + 1).last() == m.targets@[j as int]@);
            if let Some(rel) = m.targets[j].strip_prefix(root) {
                insert_row(&mut groups, &folder, MappedFile { name: name.clone(), rel });
            }
        }
        assert(targets.take(m.targets@.len() as int) =~= targets);
    }
    assert(all.take(mappings@.len() as int) =~= all);
    groups
}

// --- Laws ------------------------------------------------------------------

/// Whether groups come in order of folder, no folder twice, and files in order of
/// location.
pub open spec fn groups_ordered(groups: Seq<GroupModel>) -> bool {
    &&& forall|i: int, j: int|
        #![trigger groups[i], groups[j]]
        0 <= i < j < groups.len() ==> path_order(groups[i].folder, groups[j].folder) == Order::Less
    &&& forall|i: int|
        #![trigger groups[i]]
        0 <= i < groups.len() ==> files_ordered(groups[i].files) && groups[i].files.len() > 0
}

/// Whether files come in order of location.
pub open spec fn files_ordered(files: Seq<FileModel>) -> bool {
    forall|i: int, j: int|
        #![trigger files[i], files[j]]
        0 <= i < j < files.len() ==> path_order(files[i].rel, files[j].rel) != Order::Greater
}

proof fn lemma_order_chain(a: Seq<u8>, b: Seq<u8>, c: Seq<u8>)
    ensures
        path_order(a, b) != Order::Greater && path_order(b, c) != Order::Greater ==> path_order(
            a,
            c,
        ) != Order::Greater,
        path_order(a, b) == Order::Less && path_order(b, c) == Order::Less ==> path_order(a, c)
            == Order::Less,
        path_order(a, b) == Order::Greater ==> path_order(b, a) == Order::Less,
        path_order(a, b) == Order::Equal && path_order(a, c) == Order::Less ==> path_order(b, c)
            == Order::Less,
{
    let x = components(a);
    let y = components(b);
    let z = components(c);
    lemma_key_order(x, y);
    lemma_key_order(y, z);
    lemma_key_order(x, z);
    if path_order(a, b) == Order::Less && path_order(b, c) == Order::Less {
        lemma_key_order_transitive(x, y, z);
    }
}

proof fn lemma_with_file(files: Seq<FileModel>, f: FileModel)
    requires
        files_ordered(files),
    ensures
        files_ordered(with_file(files, f)),
        with_file(files, f).len() == files.len() + 1,
        forall|i: int|
            #![trigger with_file(files, f)[i]]
            0 <= i < with_file(files, f).len() ==> with_file(files, f)[i] == f || files.contains(
                with_file(files, f)[i],
            ),
    decreases files.len(),
{
    let out = with_file(files, f);
    if files.len() == 0 || path_order(files.last().rel, f.rel) != Order::Greater {
        assert forall|i: int, j: int|
            #![trigger out[i], out[j]]
            0 <= i < j < out.len() implies path_order(out[i].rel, out[j].rel) != Order::Greater by {
            if j == files.len() && i < files.len() - 1 {
                assert(path_order(files[i].rel, files[files.len() - 1].rel) != Order::Greater);
                lemma_order_chain(files[i].rel, files.last().rel, f.rel);
            }
        }
    } else {
        let front = files.drop_last();
        assert(files_ordered(front)) by {
            assert forall|i: int, j: int|
                #![trigger front[i], front[j]]
                0 <= i < j < front.len() implies path_order(front[i].rel, front[j].rel)
                != Order::Greater by {
                assert(front[i] == files[i] && front[j] == files[j]);
            }
        }
        lemma_with_file(front, f);
        let rest = with_file(front, f);
        assert forall|i: int, j: int|
            #![trigger out[i], out[j]]
            0 <= i < j < out.len() implies path_order(out[i].rel, out[j].rel) != Order::Greater by {
            assert(out[i] == rest[i]);
            if j == rest.len() {
                if rest[i] == f {
                    lemma_order_chain(files.last().rel, f.rel, f.rel);
                } else {
                    assert(front.contains(rest[i]));
                    let k = choose|k: int| 0 <= k < front.len() && front[k] == rest[i];
                    assert(path_order(files[k].rel, files[files.len() - 1].rel) != Order::Greater);
                }
            } else {
                assert(out[j] == rest[j]);
            }
        }
        assert forall|i: int|
            #![trigger out[i]]
            0 <= i < out.len() implies out[i] == f || files.contains(out[i]) by {
            if i < rest.len() {
                assert(out[i] == rest[i]);
                if rest[i] != f {
                    let k = choose|k: int| 0 <= k < front.len() && front[k] == rest[i];
                    assert(files[k] == out[i]);
                }
            } else {
                assert(files[files.len() - 1] == out[i]);
            }
        }
    }
}

proof fn lemma_with_row(groups: Seq<GroupModel>, folder: Seq<u8>, f: FileModel)
    requires
        groups_ordered(groups),
    ensures
        groups_ordered(with_row(groups, folder, f)),
        forall|b: Seq<u8>|
            (forall|i: int|
                #![trigger groups[i]]
                0 <= i < groups.len() ==> path_order(groups[i].folder, b) == Order::Less) && path_order(
                folder,
                b,
            ) == Order::Less ==> (forall|i: int|
                #![trigger with_row(groups, folder, f)[i]]
                0 <= i < with_row(groups, folder, f).len() ==> #[trigger] path_order(
                    with_row(groups, folder, f)[i].folder,
                    b,
                ) == Order::Less),
    decreases groups.len(),
{
    let out = with_row(groups, folder, f);
    assert(files_ordered(seq![f]));
    if groups.len() > 0 {
        let last = groups.last();
        let front = groups.drop_last();
        lemma_order_chain(last.folder, folder, folder);
        assert(groups_ordered(front)) by {
            assert forall|i: int, j: int|
                #![trigger front[i], front[j]]
                0 <= i < j < front.len() implies path_order(front[i].folder, front[j].folder)
                == Order::Less by {
                assert(front[i] == groups[i] && front[j] == groups[j]);
            }
            assert forall|i: int| #![trigger front[i]] 0 <= i < front.len() implies files_ordered(
                front[i].files,
            ) && front[i].files.len() > 0 by {
                assert(front[i] == groups[i]);
            }
        }
        assert(groups[groups.len() - 1] == last);
        assert forall|i: int| #![trigger front[i]] 0 <= i < front.len() implies path_order(
            front[i].folder,
            last.folder,
        ) == Order::Less by {
            assert(front[i] == groups[i]);
        }
        match path_order(last.folder, folder) {
            Order::Less => {
                assert forall|i: int, j: int|
                    #![trigger out[i], out[j]]
                    0 <= i < j < out.len() implies path_order(out[i].folder, out[j].folder)
                    == Order::Less by {
                    assert(out[i] == groups[i]);
                    if j < groups.len() {
                        assert(out[j] == groups[j]);
                    } else if i < front.len() {
                        assert(front[i] == groups[i]);
                        lemma_order_chain(front[i].folder, last.folder, folder);
                    }
                }
            },
            Order::Equal => {
                lemma_with_file(last.files, f);
                assert forall|i: int, j: int|
                    #![trigger out[i], out[j]]
                    0 <= i < j < out.len() implies path_order(out[i].folder, out[j].folder)
                    == Order::Less by {
                    assert(out[i] == front[i]);
                    if j < front.len() {
                        assert(out[j] == front[j]);
                    }
                }
                assert forall|i: int| #![trigger out[i]] 0 <= i < out.len() implies files_ordered(
                    out[i].files,
                ) && out[i].files.len() > 0 by {
                    if i < front.len() {
                        assert(out[i] == front[i]);
                    }
                }
            },
            Order::Greater => {
                lemma_with_row(front, folder, f);
                let rest = with_row(front, folder, f);
                assert(forall|i: int|
                    #![trigger rest[i]]
                    0 <= i < rest.len() ==> path_order(rest[i].folder, last.folder) == Order::Less);
                assert forall|i: int, j: int|
                    #![trigger out[i], out[j]]
                    0 <= i < j < out.len() implies path_order(out[i].folder, out[j].folder)
                    == Order::Less by {
                    assert(out[i] == rest[i]);
                    if j < rest.len() {
                        assert(out[j] == rest[j]);
                    }
                }
                assert forall|i: int| #![trigger out[i]] 0 <= i < out.len() implies files_ordered(
                    out[i].files,
                ) && out[i].files.len() > 0 by {
                    if i < rest.len() {
                        assert(out[i] == rest[i]);
                    }
                }
            },
        }
    }
}

proof fn lemma_with_targets(
    groups: Seq<GroupModel>,
    root: Seq<u8>,
    source_rel: Seq<u8>,
    targets: Seq<Seq<u8>>,
)
    requires
        groups_ordered(groups),
    ensures
        groups_ordered(with_targets(groups, root, source_rel, targets)),
    decreases targets.len(),
{
    if targets.len() > 0 {
        let rest = with_targets(groups, root, source_rel, targets.drop_last());
        lemma_with_targets(groups, root, source_rel, targets.drop_last());
        if let Some(rel) = stripped(targets.last(), root) {
            lemma_with_row(
                rest,
                folder_of(source_rel),
                FileModel { name: name_of(source_rel), rel },
            );
        }
    }
}

/// Groups come in order of folder, no folder twice and none empty, and the files of each
/// in order of their location.
pub proof fn law_groups_are_ordered(mappings: Seq<Link>, root: Seq<u8>)
    ensures
        groups_ordered(grouped(mappings, root)),
    decreases mappings.len(),
{
    if mappings.len() > 0 {
        law_groups_are_ordered(mappings.drop_last(), root);
        lemma_with_targets(
            grouped(mappings.drop_last(), root),
            root,
            mappings.last().source_rel,
            mappings.last().targets,
        );
    }
}

/// How many files groups have in all.
pub open spec fn file_total(groups: Seq<GroupModel>) -> nat
    decreases groups.len(),
{
    if groups.len() == 0 {
        0
    } else {
        file_total(groups.drop_last()) + groups.last().files.len()
    }
}

/// Whether a file stands in the group of a folder.
pub open spec fn has_file(groups: Seq<GroupModel>, folder: Seq<u8>, f: FileModel) -> bool {
    exists|g: int|
        0 <= g < groups.len() && components((#[trigger] groups[g]).folder) == components(folder)
            && groups[g].files.contains(f)
}

proof fn lemma_file_kept(files: Seq<FileModel>, f: FileModel)
    ensures
        with_file(files, f).len() == files.len() + 1,
        with_file(files, f).contains(f),
        forall|x: FileModel| #[trigger] files.contains(x) ==> with_file(files, f).contains(x),
    decreases files.len(),
{
    let out = with_file(files, f);
    if files.len() == 0 || path_order(files.last().rel, f.rel) != Order::Greater {
        assert(out[files.len() as int] == f);
        assert forall|x: FileModel| #[trigger] files.contains(x) implies out.contains(x) by {
            let k = choose|k: int| 0 <= k < files.len() && files[k] == x;
            assert(out[k] == x);
        }
    } else {
        let r = files.drop_last();
        lemma_file_kept(r, f);
        let o = with_file(r, f);
        let k = choose|k: int| 0 <= k < o.len() && o[k] == f;
        assert(out[k] == f);
        assert forall|x: FileModel| #[trigger] files.contains(x) implies out.contains(x) by {
            let k = choose|k: int| 0 <= k < files.len() && files[k] == x;
            if k < r.len() {
                assert(r[k] == x);
                assert(r.contains(x));
                let n = choose|n: int| 0 <= n < o.len() && o[n] == x;
                assert(out[n] == x);
            } else {
                assert(out[o.len() as int] == x);
            }
        }
    }
}

proof fn lemma_row_kept(groups: Seq<GroupModel>, folder: Seq<u8>, f: FileModel)
    ensures
        file_total(with_row(groups, folder, f)) == file_total(groups) + 1,
        has_file(with_row(groups, folder, f), folder, f),
        forall|d: Seq<u8>, x: FileModel| #[trigger]
            has_file(groups, d, x) ==> has_file(with_row(groups, folder, f), d, x),
    decreases groups.len(),
{
    let out = with_row(groups, folder, f);
    let fresh = GroupModel { folder, files: seq![f] };
    assert(fresh.files[0] == f);
    if groups.len() == 0 {
        assert(out.drop_last() =~= Seq::<GroupModel>::empty());
        assert(out[0] == fresh);
        reveal_with_fuel(file_total, 2);
    } else {
        let last = groups.last();
        let front = groups.drop_last();
        assert(groups[groups.len() - 1] == last);
        lemma_key_order(components(last.folder), components(folder));
        match path_order(last.folder, folder) {
            Order::Less => {
                assert(out.drop_last() =~= groups);
                assert(out[groups.len() as int] == fresh);
                assert forall|d: Seq<u8>, x: FileModel| #[trigger] has_file(
                    groups,
                    d,
                    x,
                ) implies has_file(out, d, x) by {
                    let g = choose|g: int|
                        0 <= g < groups.len() && components((#[trigger] groups[g]).folder)
                            == components(d) && groups[g].files.contains(x);
                    assert(out[g] == groups[g]);
                }
            },
            Order::Equal => {
                lemma_file_kept(last.files, f);
                assert(out.drop_last() =~= front);
                let at = front.len() as int;
                assert(out[at].folder == last.folder);
                assert(components(out[at].folder) == components(folder));
                assert forall|d: Seq<u8>, x: FileModel| #[trigger] has_file(
                    groups,
                    d,
                    x,
                ) implies has_file(out, d, x) by {
                    let g = choose|g: int|
                        0 <= g < groups.len() && components((#[trigger] groups[g]).folder)
                            == components(d) && groups[g].files.contains(x);
                    if g < at {
                        assert(out[g] == groups[g]);
                    } else {
                        assert(out[at].files.contains(x));
                    }
                }
            },
            Order::Greater => {
                lemma_row_kept(front, folder, f);
                let o = with_row(front, folder, f);
                assert(out.drop_last() =~= o);
                let g = choose|g: int|
                    0 <= g < o.len() && components((#[trigger] o[g]).folder) == components(folder)
                        && o[g].files.contains(f);
                assert(out[g] == o[g]);
                assert forall|d: Seq<u8>, x: FileModel| #[trigger] has_file(
                    groups,
                    d,
                    x,
                ) implies has_file(out, d, x) by {
                    let g = choose|g: int|
                        0 <= g < groups.len() && components((#[trigger] groups[g]).folder)
                            == components(d) && groups[g].files.contains(x);
                    if g < front.len() {
                        assert(front[g] == groups[g]);
                        assert(has_file(front, d, x));
                        let k = choose|k: int|
                            0 <= k < o.len() && components((#[trigger] o[k]).folder) == components(
                                d,
                            ) && o[k].files.contains(x);
                        assert(out[k] == o[k]);
                    } else {
                        assert(out[o.len() as int] == last);
                    }
                }
            },
        }
    }
}

proof fn lemma_targets_kept(
    groups: Seq<GroupModel>,
    root: Seq<u8>,
    source_rel: Seq<u8>,
    targets: Seq<Seq<u8>>,
)
    ensures
        file_total(with_targets(groups, root, source_rel, targets)) == file_total(groups)
            + targets.filter(
            |t: Seq<u8>| components(root).is_prefix_of(components(t)),
        ).len(),
        forall|j: int|
            #![trigger targets[j]]
            0 <= j < targets.len() && stripped(targets[j], root) is Some ==> has_file(
                with_targets(groups, root, source_rel, targets),
                folder_of(source_rel),
                FileModel { name: name_of(source_rel), rel: stripped(targets[j], root)->0 },
            ),
        forall|d: Seq<u8>, x: FileModel| #[trigger]
            has_file(groups, d, x) ==> has_file(
                with_targets(groups, root, source_rel, targets),
                d,
                x,
            ),
    decreases targets.len(),
{
    reveal(Seq::filter);
    if targets.len() > 0 {
        let front = targets.drop_last();
        lemma_targets_kept(groups, root, source_rel, front);
        let rest = with_targets(groups, root, source_rel, front);
        let out = with_targets(groups, root, source_rel, targets);
        let folder = folder_of(source_rel);
        if stripped(targets.last(), root) is Some {
            let f = FileModel {
                name: name_of(source_rel),
                rel: stripped(targets.last(), root)->0,
            };
            lemma_row_kept(rest, folder, f);
        }
        assert forall|j: int|
            #![trigger targets[j]]
            0 <= j < targets.len() && stripped(targets[j], root) is Some implies has_file(
            out,
            folder,
            FileModel { name: name_of(source_rel), rel: stripped(targets[j], root)->0 },
        ) by {
            if j < front.len() {
                assert(front[j] == targets[j]);
                assert(has_file(
                    rest,
                    folder,
                    FileModel { name: name_of(source_rel), rel: stripped(targets[j], root)->0 },
                ));
            }
        }
        assert forall|d: Seq<u8>, x: FileModel| #[trigger] has_file(groups, d, x) implies has_file(
            out,
            d,
            x,
        ) by {
            assert(has_file(rest, d, x));
        }
    }
}

/// The groups of a destination show every file that is mapped into it, under the folder of
/// its source, and as many files as are mapped into it.
pub proof fn law_groups_show_every_mapped_file(mappings: Seq<Link>, root: Seq<u8>)
    ensures
        forall|i: int, j: int|
            #![trigger mappings[i].targets[j]]
            0 <= i < mappings.len() && 0 <= j < mappings[i].targets.len() && stripped(
                mappings[i].targets[j],
                root,
            ) is Some ==> has_file(
                grouped(mappings, root),
                folder_of(mappings[i].source_rel),
                FileModel {
                    name: name_of(mappings[i].source_rel),
                    rel: stripped(mappings[i].targets[j], root)->0,
                },
            ),
        file_total(grouped(mappings, root)) == mappings.fold_left(
            0,
            |n: int, m: Link|
                n + m.targets.filter(
                    |t: Seq<u8>| components(root).is_prefix_of(components(t)),
                ).len(),
        ),
    decreases mappings.len(),
{
    if mappings.len() > 0 {
        let front = mappings.drop_last();
        let m = mappings.last();
        law_groups_show_every_mapped_file(front, root);
        lemma_targets_kept(grouped(front, root), root, m.source_rel, m.targets);
        assert(mappings[mappings.len() - 1] == m);
        assert forall|i: int, j: int|
            #![trigger mappings[i].targets[j]]
            0 <= i < mappings.len() && 0 <= j < mappings[i].targets.len() && stripped(
                mappings[i].targets[j],
                root,
            ) is Some implies has_file(
            grouped(mappings, root),
            folder_of(mappings[i].source_rel),
            FileModel {
                name: name_of(mappings[i].source_rel),
                rel: stripped(mappings[i].targets[j], root)->0,
            },
        ) by {
            if i < front.len() {
                assert(front[i].targets[j] == mappings[i].targets[j]);
                assert(has_file(
                    grouped(front, root),
                    folder_of(mappings[i].source_rel),
                    FileModel {
                        name: name_of(mappings[i].source_rel),
                        rel: stripped(mappings[i].targets[j], root)->0,
                    },
                ));
            } else {
                assert(m.targets[j] == mappings[i].targets[j]);
            }
        }
    }
}

} // verus!
