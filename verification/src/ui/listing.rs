//! The subfolders of a folder, as the folder browser lists them.

use vstd::prelude::*;
use vstd::string::*;

use crate::path::{file_name_of, path_bytes, Order, PathBuf};
use crate::sorting::{self, is_permutation, Ranked};
use crate::text::{self, lossy_text, lowercase_text};

verus! {

/// Something found in a folder.
#[derive(Debug)]
pub struct FolderItem {
    pub path: PathBuf,
    /// Whether it is a directory, and not a link to one.
    pub is_dir: bool,
}

/// Texts in dictionary order, character by character.
pub open spec fn text_order(a: Seq<char>, b: Seq<char>) -> Order
    decreases a.len(),
{
    if a.len() == 0 {
        if b.len() == 0 {
            Order::Equal
        } else {
            Order::Less
        }
    } else if b.len() == 0 {
        Order::Greater
    } else if (a[0] as u32) < (b[0] as u32) {
        Order::Less
    } else if (a[0] as u32) > (b[0] as u32) {
        Order::Greater
    } else {
        text_order(a.drop_first(), b.drop_first())
    }
}

proof fn lemma_text_order(a: Seq<char>, b: Seq<char>)
    ensures
        text_order(b, a) == crate::path::flipped(text_order(a, b)),
    decreases a.len(),
{
    if a.len() > 0 && b.len() > 0 {
        lemma_text_order(a.drop_first(), b.drop_first());
    }
}

proof fn lemma_text_order_transitive(a: Seq<char>, b: Seq<char>, c: Seq<char>)
    requires
        text_order(a, b) != Order::Greater,
        text_order(b, c) != Order::Greater,
    ensures
        text_order(a, c) != Order::Greater,
    decreases a.len(),
{
    if a.len() > 0 && b.len() > 0 && c.len() > 0 && a[0] as u32 == b[0] as u32 && b[0] as u32
        == c[0] as u32 {
        lemma_text_order_transitive(a.drop_first(), b.drop_first(), c.drop_first());
    }
}

fn order_texts(a: &Vec<char>, b: &Vec<char>) -> (res: Order)
    ensures
        res == text_order(a@, b@),
{
    let mut i: usize = 0;
    assert(a@.skip(0) =~= a@);
    assert(b@.skip(0) =~= b@);
    while i < a.len() && i < b.len()
        invariant
            i <= a@.len(),
            i <= b@.len(),
            text_order(a@, b@) == text_order(a@.skip(i as int), b@.skip(i as int)),
        decreases a@.len() - i,
    {
        let x = a[i] as u32;
        let y = b[i] as u32;
        assert(a@.skip(i as int)[0] == a@[i as int]);
        assert(b@.skip(i as int)[0] == b@[i as int]);
        assert(a@.skip(i as int).drop_first() =~= a@.skip(i + 1));
        assert(b@.skip(i as int).drop_first() =~= b@.skip(i + 1));
        if x < y {
            return Order::Less;
        }
        if x > y {
            return Order::Greater;
        }
        i += 1;
    }
    if i < b.len() {
        Order::Less
    } else if i < a.len() {
        Order::Greater
    } else {
        Order::Equal
    }
}

/// What a folder is sorted by.
struct NameKey {
    chars: Vec<char>,
}

impl Ranked for NameKey {
    closed spec fn le(&self, other: &NameKey) -> bool {
        text_order(self.chars@, other.chars@) != Order::Greater
    }

    proof fn le_total(&self, other: &NameKey) {
        lemma_text_order(self.chars@, other.chars@);
    }

    proof fn le_transitive(&self, mid: &NameKey, other: &NameKey) {
        lemma_text_order_transitive(self.chars@, mid.chars@, other.chars@);
    }

    fn at_most(&self, other: &NameKey) -> (res: bool) {
        order_texts(&self.chars, &other.chars) != Order::Greater
    }
}

/// What a folder is sorted by: its name in lowercase.
pub open spec fn sort_name(p: Seq<u8>) -> Seq<char> {
    match file_name_of(p) {
        Some(n) => lowercase_text(lossy_text(n)),
        None => Seq::empty(),
    }
}

fn sort_key(p: &PathBuf) -> (res: NameKey)
    ensures
        res.chars@ == sort_name(p@),
{
    match p.file_name() {
        Some(n) => {
            let shown = text::lossy(n.as_slice());
            let lower = text::lowercase(shown.as_str());
            NameKey { chars: text::chars_of(lower.as_str()) }
        },
        None => NameKey { chars: Vec::new() },
    }
}

/// The directories among what was found, as it was found.
pub open spec fn dirs_in(items: Seq<FolderItem>) -> Seq<Seq<u8>>
    decreases items.len(),
{
    if items.len() == 0 {
        Seq::empty()
    } else if items.last().is_dir {
        dirs_in(items.drop_last()).push(items.last().path@)
    } else {
        dirs_in(items.drop_last())
    }
}

/// Whether `out` lists `dirs` by name, whatever the case; those of the same name in the
/// order in which they were found.
pub open spec fn is_listing(out: Seq<Seq<u8>>, dirs: Seq<Seq<u8>>) -> bool {
    exists|p: Seq<usize>| #[trigger] is_listing_by(out, dirs, p)
}

/// Whether `out` lists `dirs` by name, taking them in the order `p`.
pub open spec fn is_listing_by(out: Seq<Seq<u8>>, dirs: Seq<Seq<u8>>, p: Seq<usize>) -> bool {
    &&& is_permutation(p, dirs.len())
    &&& out.len() == dirs.len()
    &&& forall|i: int| #![trigger out[i]] 0 <= i < out.len() ==> out[i] == dirs[p[i] as int]
    &&& forall|i: int, j: int|
        #![trigger out[i], out[j]]
        0 <= i < j < out.len() ==> {
            let o = text_order(sort_name(out[i]), sort_name(out[j]));
            o == Order::Less || (o == Order::Equal && p[i] < p[j])
        }
}

/// The subfolders among what was found in a folder (links are none), sorted by name
/// whatever the case.
pub fn read_subdirs(items: &Vec<FolderItem>) -> (res: Vec<PathBuf>)
    ensures
        is_listing(path_bytes(res@), dirs_in(items@)),
{
    let mut dirs: Vec<PathBuf> = Vec::new();
    let mut keys: Vec<NameKey> = Vec::new();
    assert(path_bytes(dirs@) =~= Seq::empty());
    for i in 0..items.len()
        invariant
            path_bytes(dirs@) == dirs_in(items@.take(i as int)),
            keys@.len() == dirs@.len(),
            forall|k: int|
                #![trigger keys@[k]]
                0 <= k < keys@.len() ==> keys@[k].chars@ == sort_name(dirs@[k]@),
    {
        assert(items@.take(i + 1).drop_last() =~= items@.take(i as int));
        let ghost before = path_bytes(dirs@);
        if items[i].is_dir {
            let p = items[i].path.clone();
            keys.push(sort_key(&p));
            assert(path_bytes(dirs@.push(p)) =~= before.push(p@));
            dirs.push(p);
        }
    }
    assert(items@.take(items@.len() as int) =~= items@);
    let order = sorting::sort_positions(&keys);
    let mut res: Vec<PathBuf> = Vec::new();
    for i in 0..order.len()
        invariant
            sorting::is_sorting(keys@, order@),
            keys@.len() == dirs@.len(),
            res@.len() == i,
            forall|k: int|
                #![trigger res@[k]]
                0 <= k < i ==> res@[k]@ == dirs@[order@[k] as int]@,
    {
        res.push(dirs[order[i]].clone());
    }
    proof {
        let from = path_bytes(dirs@);
        let to = path_bytes(res@);
        sorting::lemma_sorting_is_permutation(keys@, order@);
        assert forall|i: int| #![trigger to[i]] 0 <= i < to.len() implies to[i]
            == from[order@[i] as int] by {
            assert(to[i] == res@[i]@);
        }
        assert forall|i: int, j: int| #![trigger to[i], to[j]] 0 <= i < j < to.len() implies ({
            let o = text_order(sort_name(to[i]), sort_name(to[j]));
            o == Order::Less || (o == Order::Equal && order@[i] < order@[j])
        }) by {
            let a = order@[i] as int;
            let b = order@[j] as int;
            assert(sorting::ahead(keys@, a, b));
            assert(to[i] == res@[i]@ && to[j] == res@[j]@);
            assert(keys@[a].chars@ == sort_name(to[i]));
            assert(keys@[b].chars@ == sort_name(to[j]));
            lemma_text_order(keys@[a].chars@, keys@[b].chars@);
        }
        assert(is_listing_by(to, from, order@));
    }
    res
}

// --- Laws ------------------------------------------------------------------

/// Whether a directory was found at a path.
pub open spec fn has_directory(items: Seq<FolderItem>, d: Seq<u8>) -> bool {
    exists|i: int| 0 <= i < items.len() && (#[trigger] items[i]).is_dir && items[i].path@ == d
}

/// A listing shows the directories of what was found, each of them, and nothing else.
pub proof fn law_listings_show_every_directory(items: Seq<FolderItem>, out: Seq<Seq<u8>>)
    requires
        is_listing(out, dirs_in(items)),
        items.len() <= usize::MAX,
    ensures
        out.len() == items.filter(|item: FolderItem| item.is_dir).len(),
        forall|i: int|
            #![trigger items[i]]
            0 <= i < items.len() && items[i].is_dir ==> out.contains(items[i].path@),
        forall|j: int|
            #![trigger out[j]]
            0 <= j < out.len() ==> has_directory(items, out[j]),
        forall|i: int, j: int|
            #![trigger out[i], out[j]]
            0 <= i < j < out.len() ==> text_order(sort_name(out[i]), sort_name(out[j]))
                != Order::Greater,
{
    let dirs = dirs_in(items);
    lemma_dirs_in(items);
    items.lemma_filter_len(|item: FolderItem| item.is_dir);
    let p = choose|p: Seq<usize>| #[trigger] is_listing_by(out, dirs, p);
    assert forall|i: int| #![trigger items[i]] 0 <= i < items.len() && items[i].is_dir implies
        out.contains(items[i].path@) by {
        assert(dirs.contains(items[i].path@));
        let k = choose|k: int| 0 <= k < dirs.len() && dirs[k] == items[i].path@;
        assert(p.contains(k as usize));
        let n = choose|n: int| 0 <= n < p.len() && p[n] == k as usize;
        assert(out[n] == dirs[k]);
    }
    assert forall|j: int| #![trigger out[j]] 0 <= j < out.len() implies has_directory(
        items,
        out[j],
    ) by {
        assert(dirs.contains(dirs[p[j] as int]));
    }
}

proof fn lemma_dirs_in(items: Seq<FolderItem>)
    ensures
        dirs_in(items).len() == items.filter(|item: FolderItem| item.is_dir).len(),
        forall|i: int|
            #![trigger items[i]]
            0 <= i < items.len() && items[i].is_dir ==> dirs_in(items).contains(items[i].path@),
        forall|d: Seq<u8>| #[trigger]
            dirs_in(items).contains(d) ==> has_directory(items, d),
    decreases items.len(),
{
    reveal(Seq::filter);
    if items.len() > 0 {
        let front = items.drop_last();
        let x = items.last();
        lemma_dirs_in(front);
        let rest = dirs_in(front);
        let all = dirs_in(items);
        assert(items[items.len() - 1] == x);
        assert forall|i: int| #![trigger items[i]] 0 <= i < items.len() && items[i].is_dir implies
            all.contains(items[i].path@) by {
            if i < front.len() {
                assert(front[i] == items[i]);
                let k = choose|k: int| 0 <= k < rest.len() && rest[k] == items[i].path@;
                assert(all[k] == items[i].path@);
            } else {
                assert(all[rest.len() as int] == x.path@);
            }
        }
        assert forall|d: Seq<u8>| #[trigger] all.contains(d) implies has_directory(items, d) by {
            let k = choose|k: int| 0 <= k < all.len() && all[k] == d;
            if k < rest.len() {
                assert(rest[k] == d);
                assert(rest.contains(d));
                let i = choose|i: int|
                    0 <= i < front.len() && (#[trigger] front[i]).is_dir && front[i].path@ == d;
                assert(items[i] == front[i]);
            } else {
                assert(items[items.len() - 1].path@ == d);
            }
        }
    }
}

/// Texts are ordered by the first character in which they differ, and a text comes before
/// any that goes on from it.
pub proof fn law_texts_are_ordered_by_the_first_difference(
    head: Seq<char>,
    x: char,
    y: char,
    a: Seq<char>,
    b: Seq<char>,
)
    ensures
        (x as u32) < (y as u32) ==> text_order(head.push(x) + a, head.push(y) + b) == Order::Less,
        text_order(head, head.push(x) + a) == Order::Less,
        text_order(head, head) == Order::Equal,
    decreases head.len(),
{
    let p = head.push(x) + a;
    let q = head.push(y) + b;
    if head.len() > 0 {
        law_texts_are_ordered_by_the_first_difference(head.drop_first(), x, y, a, b);
        assert(p.drop_first() =~= head.drop_first().push(x) + a);
        assert(q.drop_first() =~= head.drop_first().push(y) + b);
    }
}

} // verus!
