//! Unix paths as byte strings, read component by component.
//!
//! A path keeps the exact bytes it was made from. What it *names* is its list of
//! components: repeated slashes and `.` segments vanish, except a `.` that opens
//! a relative path. Two paths are equal, ordered and nested by their components.

use vstd::prelude::*;
use vstd::string::*;
use vstd::utf8::*;

use crate::sorting::{self, Ranked};
use crate::text;

verus! {

/// The path separator, `/`.
pub const SLASH: u8 = 47;

/// The byte `.`.
pub const DOT: u8 = 46;

/// A path, held as the bytes it was given.
#[derive(Debug)]
pub struct PathBuf {
    pub bytes: Vec<u8>,
}

impl View for PathBuf {
    type V = Seq<u8>;

    open spec fn view(&self) -> Seq<u8> {
        self.bytes@
    }
}

/// The outcome of comparing two values of an ordered kind.
#[derive(Debug, Clone, Copy, PartialEq, Eq, Structural)]
pub enum Order {
    Less,
    Equal,
    Greater,
}

// --- Components ------------------------------------------------------------

/// The end of the segment that starts at `i`: the next slash, or the end.
pub open spec fn segment_end(b: Seq<u8>, i: int) -> int
    decreases b.len() - i,
{
    if i < 0 || i >= b.len() || b[i] == SLASH {
        i
    } else {
        segment_end(b, i + 1)
    }
}

/// A segment ends at a slash or at the end of the bytes, and holds no slash.
pub proof fn lemma_segment_end(b: Seq<u8>, i: int)
    requires
        0 <= i <= b.len(),
    ensures
        i <= segment_end(b, i) <= b.len(),
        i < b.len() && b[i] != SLASH ==> i < segment_end(b, i),
        segment_end(b, i) < b.len() ==> b[segment_end(b, i)] == SLASH,
        forall|j: int| i <= j < segment_end(b, i) ==> b[j] != SLASH,
    decreases b.len() - i,
{
    if i < b.len() && b[i] != SLASH {
        lemma_segment_end(b, i + 1);
    }
}

/// The segments of `b` from position `i` on that count as components, as ranges.
pub open spec fn body_spans(b: Seq<u8>, i: int) -> Seq<(int, int)>
    decreases b.len() - i,
{
    if i < 0 || i >= b.len() {
        Seq::empty()
    } else if b[i] == SLASH {
        body_spans(b, i + 1)
    } else if segment_end(b, i) == i + 1 && b[i] == DOT {
        body_spans(b, segment_end(b, i))
    } else {
        proof {
            lemma_segment_end(b, i);
        }
        seq![(i, segment_end(b, i))] + body_spans(b, segment_end(b, i))
    }
}

/// Whether `b` starts with a slash.
pub open spec fn is_rooted(b: Seq<u8>) -> bool {
    b.len() > 0 && b[0] == SLASH
}

/// Whether `b` is `.` or starts with `./`.
pub open spec fn opens_with_dot(b: Seq<u8>) -> bool {
    b.len() > 0 && b[0] == DOT && (b.len() == 1 || b[1] == SLASH)
}

/// The components of `b`, as ranges of bytes.
pub open spec fn spans(b: Seq<u8>) -> Seq<(int, int)> {
    (if is_rooted(b) || opens_with_dot(b) {
        seq![(0int, 1int)]
    } else {
        Seq::empty()
    }) + body_spans(b, 0)
}

/// The components of `b`: `/` for the root, `.` for an opening current
/// directory, and every segment that is neither empty nor `.`.
pub open spec fn components(b: Seq<u8>) -> Seq<Seq<u8>> {
    spans(b).map_values(|s: (int, int)| b.subrange(s.0, s.1))
}

/// Whether a component is an ordinary name (not the root, `.` or `..`).
pub open spec fn is_name(c: Seq<u8>) -> bool {
    c != seq![SLASH] && c != seq![DOT] && c != seq![DOT, DOT]
}

/// Whether `base` names `p` or an ancestor of it.
pub open spec fn is_within(p: Seq<u8>, base: Seq<u8>) -> bool {
    components(base).is_prefix_of(components(p))
}

/// The component that goes one level up.
pub open spec fn parent_dir() -> Seq<u8> {
    seq![DOT, DOT]
}

/// Whether a path goes up somewhere.
pub open spec fn climbs(p: Seq<u8>) -> bool {
    components(p).contains(parent_dir())
}

/// Whether `p` is `base` or lies below it, without going up again.
pub open spec fn lies_inside(p: Seq<u8>, base: Seq<u8>) -> bool {
    &&& is_within(p, base)
    &&& !components(p).skip(components(base).len() as int).contains(parent_dir())
}

/// Whether one of the two paths lies within the other.
pub open spec fn overlap(a: Seq<u8>, b: Seq<u8>) -> bool {
    is_within(a, b) || is_within(b, a)
}

/// Whether the two paths name the same place.
pub open spec fn same_path(a: Seq<u8>, b: Seq<u8>) -> bool {
    components(a) == components(b)
}

/// `rel` looked up from `base`: an absolute `rel` stands for itself.
pub open spec fn joined(base: Seq<u8>, rel: Seq<u8>) -> Seq<u8> {
    if is_rooted(rel) {
        rel
    } else if base.len() > 0 && base.last() != SLASH {
        base.push(SLASH) + rel
    } else {
        base + rel
    }
}

/// The path without its last component; nothing for the root and the empty path.
pub open spec fn parent_of(b: Seq<u8>) -> Option<Seq<u8>> {
    let s = spans(b);
    if s.len() == 0 || components(b).last() == seq![SLASH] {
        None
    } else if s.len() == 1 {
        Some(Seq::empty())
    } else {
        Some(b.subrange(0, s[s.len() - 2].1))
    }
}

/// The last component, where it is an ordinary name.
pub open spec fn file_name_of(b: Seq<u8>) -> Option<Seq<u8>> {
    let c = components(b);
    if c.len() > 0 && is_name(c.last()) {
        Some(c.last())
    } else {
        None
    }
}

/// The position of the last dot in `name`, or -1.
pub open spec fn last_dot(name: Seq<u8>) -> int
    decreases name.len(),
{
    if name.len() == 0 {
        -1
    } else if name.last() == DOT {
        name.len() - 1
    } else {
        last_dot(name.drop_last())
    }
}

/// What follows the last dot of the file name, where something precedes that dot.
pub open spec fn extension_of(b: Seq<u8>) -> Option<Seq<u8>> {
    match file_name_of(b) {
        Some(name) => if last_dot(name) > 0 {
            Some(name.skip(last_dot(name) + 1))
        } else {
            None
        },
        None => None,
    }
}

/// What is left of `p` below `base`, where `base` is `p` or an ancestor of it.
pub open spec fn stripped(p: Seq<u8>, base: Seq<u8>) -> Option<Seq<u8>> {
    let s = spans(p);
    let n = components(base).len() as int;
    if !is_within(p, base) {
        None
    } else if n == s.len() {
        Some(Seq::empty())
    } else {
        Some(p.subrange(s[n].0, s.last().1))
    }
}

// --- Order -----------------------------------------------------------------

/// Byte strings in dictionary order.
pub open spec fn byte_order(a: Seq<u8>, b: Seq<u8>) -> Order
    decreases a.len(),
{
    if a.len() == 0 {
        if b.len() == 0 {
            Order::Equal
        } else {
            Order::Less
        }
    } else if b.len() == 0 {
        Order::Greater
    } else if a[0] < b[0] {
        Order::Less
    } else if a[0] > b[0] {
        Order::Greater
    } else {
        byte_order(a.drop_first(), b.drop_first())
    }
}

/// The rank of a component's kind: root, `.`, `..`, then names.
pub open spec fn component_rank(c: Seq<u8>) -> int {
    if c == seq![SLASH] {
        0
    } else if c == seq![DOT] {
        1
    } else if c == seq![DOT, DOT] {
        2
    } else {
        3
    }
}

/// Components in order: by kind, then names as byte strings.
pub open spec fn component_order(a: Seq<u8>, b: Seq<u8>) -> Order {
    if component_rank(a) < component_rank(b) {
        Order::Less
    } else if component_rank(a) > component_rank(b) {
        Order::Greater
    } else {
        byte_order(a, b)
    }
}

/// Component lists in dictionary order.
pub open spec fn key_order(a: Seq<Seq<u8>>, b: Seq<Seq<u8>>) -> Order
    decreases a.len(),
{
    if a.len() == 0 {
        if b.len() == 0 {
            Order::Equal
        } else {
            Order::Less
        }
    } else if b.len() == 0 {
        Order::Greater
    } else if component_order(a[0], b[0]) != Order::Equal {
        component_order(a[0], b[0])
    } else {
        key_order(a.drop_first(), b.drop_first())
    }
}

/// Paths in order, component by component.
pub open spec fn path_order(a: Seq<u8>, b: Seq<u8>) -> Order {
    key_order(components(a), components(b))
}

proof fn lemma_body_spans(b: Seq<u8>, i: int)
    requires
        0 <= i <= b.len(),
    ensures
        forall|k: int|
            #![trigger body_spans(b, i)[k]]
            0 <= k < body_spans(b, i).len() ==> i <= body_spans(b, i)[k].0 < body_spans(b, i)[k].1
                <= b.len(),
    decreases b.len() - i,
{
    if i < b.len() {
        if b[i] == SLASH {
            lemma_body_spans(b, i + 1);
            assert(body_spans(b, i) == body_spans(b, i + 1));
        } else {
            lemma_segment_end(b, i);
            let e = segment_end(b, i);
            lemma_body_spans(b, e);
            let rest = body_spans(b, e);
            if !(e == i + 1 && b[i] == DOT) {
                assert forall|k: int|
                    #![trigger body_spans(b, i)[k]]
                    0 <= k < body_spans(b, i).len() implies i <= body_spans(b, i)[k].0
                    < body_spans(b, i)[k].1 <= b.len() by {
                    if k > 0 {
                        assert(body_spans(b, i)[k] == rest[k - 1]);
                    }
                }
            } else {
                assert(body_spans(b, i) == rest);
            }
        }
    }
}

/// Every component range lies within the bytes of its path and is not empty.
proof fn lemma_spans(b: Seq<u8>)
    ensures
        forall|k: int|
            #![trigger spans(b)[k]]
            0 <= k < spans(b).len() ==> 0 <= spans(b)[k].0 < spans(b)[k].1 <= b.len(),
        components(b).len() == spans(b).len(),
{
    lemma_body_spans(b, 0);
}

/// The ranges of a vector of positions, as mathematical ranges.
spec fn ranges(v: Seq<(usize, usize)>) -> Seq<(int, int)> {
    v.map_values(|s: (usize, usize)| (s.0 as int, s.1 as int))
}

fn segment_end_of(b: &Vec<u8>, from: usize) -> (res: usize)
    requires
        from <= b@.len(),
    ensures
        res == segment_end(b@, from as int),
        from <= res <= b@.len(),
{
    let mut i: usize = from;
    while i < b.len() && b[i] != SLASH
        invariant
            from <= i <= b@.len(),
            segment_end(b@, from as int) == segment_end(b@, i as int),
        ensures
            from <= i <= b@.len(),
            segment_end(b@, from as int) == i,
        decreases b@.len() - i,
    {
        i += 1;
    }
    i
}

fn spans_of(b: &Vec<u8>) -> (res: Vec<(usize, usize)>)
    ensures
        ranges(res@) == spans(b@),
        forall|k: int| 0 <= k < res@.len() ==> (#[trigger] res@[k]).0 < res@[k].1 <= b@.len(),
{
    let mut out: Vec<(usize, usize)> = Vec::new();
    let n = b.len();
    if n > 0 && (b[0] == SLASH || (b[0] == DOT && (n == 1 || b[1] == SLASH))) {
        out.push((0, 1));
    }
    let mut i: usize = 0;
    assert(ranges(out@) + body_spans(b@, 0) == spans(b@));
    while i < n
        invariant
            n == b@.len(),
            i <= n,
            ranges(out@) + body_spans(b@, i as int) == spans(b@),
            forall|k: int| 0 <= k < out@.len() ==> (#[trigger] out@[k]).0 < out@[k].1 <= b@.len(),
        decreases n - i,
    {
        if b[i] == SLASH {
            i += 1;
        } else {
            let e = segment_end_of(b, i);
            proof {
                lemma_segment_end(b@, i as int);
            }
            let ghost before = out@;
            if !(e == i + 1 && b[i] == DOT) {
                out.push((i, e));
                assert(ranges(out@) == ranges(before).push((i as int, e as int)));
                assert(ranges(out@) + body_spans(b@, e as int) == ranges(before) + (seq![
                    (i as int, e as int),
                ] + body_spans(b@, e as int)));
            }
            i = e;
        }
    }
    assert(ranges(out@) + body_spans(b@, n as int) == ranges(out@));
    out
}

/// Whether two byte strings are the same.
pub fn same_bytes(a: &Vec<u8>, b: &Vec<u8>) -> (res: bool)
    ensures
        res == (a@ == b@),
{
    if a.len() != b.len() {
        return false;
    }
    for i in 0..a.len()
        invariant
            a@.len() == b@.len(),
            forall|j: int| 0 <= j < i ==> a@[j] == b@[j],
    {
        if a[i] != b[i] {
            return false;
        }
    }
    assert(a@ =~= b@);
    true
}

/// The bytes of one stretch.
fn stretch(b: &Vec<u8>, from: usize, to: usize) -> (res: Vec<u8>)
    requires
        from <= to <= b@.len(),
    ensures
        res@ == b@.subrange(from as int, to as int),
{
    let mut out: Vec<u8> = Vec::new();
    for i in from..to
        invariant
            from <= to <= b@.len(),
            out@ == b@.subrange(from as int, i as int),
    {
        out.push(b[i]);
    }
    out
}

/// The byte strings of a vector of byte vectors.
pub open spec fn deep(v: Seq<Vec<u8>>) -> Seq<Seq<u8>> {
    v.map_values(|x: Vec<u8>| x@)
}

fn order_bytes(a: &Vec<u8>, b: &Vec<u8>) -> (res: Order)
    ensures
        res == byte_order(a@, b@),
{
    let mut i: usize = 0;
    assert(a@.skip(0) == a@);
    assert(b@.skip(0) == b@);
    while i < a.len() && i < b.len()
        invariant
            i <= a@.len(),
            i <= b@.len(),
            byte_order(a@, b@) == byte_order(a@.skip(i as int), b@.skip(i as int)),
        decreases a@.len() - i,
    {
        assert(a@.skip(i as int)[0] == a@[i as int]);
        assert(b@.skip(i as int)[0] == b@[i as int]);
        assert(a@.skip(i as int).drop_first() == a@.skip(i + 1));
        assert(b@.skip(i as int).drop_first() == b@.skip(i + 1));
        if a[i] < b[i] {
            return Order::Less;
        }
        if a[i] > b[i] {
            return Order::Greater;
        }
        i += 1;
    }
    if i < b.len() {
        Order::Less
    } else if i < a.len() {
        Order::Greater
    } else {
        Order::Equal
    }
}

fn rank_of(c: &Vec<u8>) -> (res: u8)
    ensures
        res == component_rank(c@),
{
    if c.len() == 1 && c[0] == SLASH {
        assert(c@ == seq![SLASH]);
        0
    } else if c.len() == 1 && c[0] == DOT {
        assert(c@ == seq![DOT]);
        1
    } else if c.len() == 2 && c[0] == DOT && c[1] == DOT {
        assert(c@ == seq![DOT, DOT]);
        2
    } else {
        assert(c@ == seq![SLASH] ==> c@[0] == SLASH);
        assert(c@ == seq![DOT] ==> c@[0] == DOT);
        assert(c@ == seq![DOT, DOT] ==> c@[0] == DOT && c@[1] == DOT);
        3
    }
}

fn order_components(a: &Vec<u8>, b: &Vec<u8>) -> (res: Order)
    ensures
        res == component_order(a@, b@),
{
    let x = rank_of(a);
    let y = rank_of(b);
    if x < y {
        Order::Less
    } else if x > y {
        Order::Greater
    } else {
        order_bytes(a, b)
    }
}

impl Clone for PathBuf {
    fn clone(&self) -> (res: Self)
        ensures
            res@ == self@,
    {
        PathBuf { bytes: self.bytes.clone() }
    }
}

impl PathBuf {
    /// The path with the given bytes.
    pub fn from_bytes(bytes: Vec<u8>) -> (res: PathBuf)
        ensures
            res@ == bytes@,
    {
        PathBuf { bytes }
    }

    /// The path written `s`.
    pub fn of(s: &str) -> (res: PathBuf)
        ensures
            res@ == encode_utf8(s@),
    {
        PathBuf { bytes: s.as_bytes_vec() }
    }

    /// The path as text for display.
    pub fn display(&self) -> (res: String)
        ensures
            res@ == text::lossy_text(self@),
    {
        text::lossy(self.bytes.as_slice())
    }

    /// The components, outermost first.
    pub fn components(&self) -> (res: Vec<Vec<u8>>)
        ensures
            deep(res@) == components(self@),
    {
        let s = spans_of(&self.bytes);
        let mut out: Vec<Vec<u8>> = Vec::new();
        for i in 0..s.len()
            invariant
                ranges(s@) == spans(self@),
                forall|k: int| 0 <= k < s@.len() ==> (#[trigger] s@[k]).0 < s@[k].1 <= self@.len(),
                deep(out@) == components(self@).take(i as int),
        {
            let (from, to) = s[i];
            let c = stretch(&self.bytes, from, to);
            let ghost before = out@;
            out.push(c);
            assert(spans(self@)[i as int] == ranges(s@)[i as int]);
            assert(deep(out@) == deep(before).push(c@));
            assert(components(self@)[i as int] == c@);
            assert(components(self@).take(i + 1) == components(self@).take(i as int).push(c@));
        }
        assert(spans(self@).len() == s@.len());
        assert(components(self@).take(s@.len() as int) == components(self@));
        out
    }

    /// Whether the path goes up somewhere.
    pub fn climbs(&self) -> (res: bool)
        ensures
            res == climbs(self@),
    {
        let parts = self.components();
        for i in 0..parts.len()
            invariant
                deep(parts@) == components(self@),
                !components(self@).take(i as int).contains(parent_dir()),
        {
            let c = &parts[i];
            let ghost all = components(self@);
            assert(deep(parts@)[i as int] == c@);
            if c.len() == 2 && c[0] == DOT && c[1] == DOT {
                assert(c@ =~= parent_dir());
                assert(all[i as int] == parent_dir());
                return true;
            }
            assert(all.take(i + 1) =~= all.take(i as int).push(c@));
            assert(!all.take(i + 1).contains(parent_dir()));
        }
        assert(deep(parts@).len() == parts@.len());
        assert(components(self@).take(parts@.len() as int) =~= components(self@));
        false
    }

    /// How many components the path has.
    pub fn depth(&self) -> (res: usize)
        ensures
            res == components(self@).len(),
    {
        let s = spans_of(&self.bytes);
        assert(ranges(s@).len() == s@.len());
        s.len()
    }

    /// Whether the path starts at the root.
    pub fn is_absolute(&self) -> (res: bool)
        ensures
            res == is_rooted(self@),
    {
        self.bytes.len() > 0 && self.bytes[0] == SLASH
    }

    /// Whether `self` and `other` name the same place.
    pub fn same(&self, other: &PathBuf) -> (res: bool)
        ensures
            res == same_path(self@, other@),
    {
        let a = self.components();
        let b = other.components();
        assert(deep(a@).len() == a@.len() && deep(b@).len() == b@.len());
        a.len() == b.len() && prefix_of(&a, &b)
    }

    /// Whether `self` is `base` or lies inside it.
    pub fn starts_with(&self, base: &PathBuf) -> (res: bool)
        ensures
            res == is_within(self@, base@),
    {
        let a = self.components();
        let b = base.components();
        prefix_of(&b, &a)
    }

    /// How `self` and `other` are ordered.
    pub fn order(&self, other: &PathBuf) -> (res: Order)
        ensures
            res == path_order(self@, other@),
    {
        let a = self.components();
        let b = other.components();
        order_keys(&a, &b)
    }

    /// `rel` looked up from `self`.
    pub fn join(&self, rel: &PathBuf) -> (res: PathBuf)
        ensures
            res@ == joined(self@, rel@),
    {
        if rel.is_absolute() {
            return rel.clone();
        }
        let mut out = self.clone();
        if out.bytes.len() > 0 && out.bytes[out.bytes.len() - 1] != SLASH {
            out.bytes.push(SLASH);
        }
        let ghost base = out@;
        for i in 0..rel.bytes.len()
            invariant
                out@ == base + rel@.take(i as int),
        {
            out.bytes.push(rel.bytes[i]);
            assert(rel@.take(i + 1) == rel@.take(i as int).push(rel@[i as int]));
        }
        assert(rel@.take(rel@.len() as int) == rel@);
        out
    }

    /// The path without its last component, if it has one to lose.
    pub fn parent(&self) -> (res: Option<PathBuf>)
        ensures
            res matches Some(p) ==> parent_of(self@) == Some(p@),
            res is None ==> parent_of(self@) is None,
    {
        let s = spans_of(&self.bytes);
        let n = s.len();
        proof {
            assert(spans(self@).len() == n);
            lemma_spans(self@);
        }
        if n == 0 {
            return None;
        }
        let (from, to) = s[n - 1];
        assert(spans(self@)[n - 1] == ranges(s@)[n - 1]);
        let last = stretch(&self.bytes, from, to);
        assert(components(self@).last() == last@);
        if rank_of(&last) == 0 {
            return None;
        }
        if n == 1 {
            return Some(PathBuf { bytes: Vec::new() });
        }
        assert(spans(self@)[n - 2] == ranges(s@)[n - 2]);
        Some(PathBuf { bytes: stretch(&self.bytes, 0, s[n - 2].1) })
    }

    /// The last component, if it is an ordinary name.
    pub fn file_name(&self) -> (res: Option<Vec<u8>>)
        ensures
            res matches Some(n) ==> file_name_of(self@) == Some(n@),
            res is None ==> file_name_of(self@) is None,
    {
        let mut c = self.components();
        assert(deep(c@).len() == c@.len());
        let ghost before = c@;
        match c.pop() {
            Some(last) => {
                assert(last@ == deep(before).last());
                if rank_of(&last) == 3 {
                    Some(last)
                } else {
                    None
                }
            },
            None => None,
        }
    }

    /// The file name as text, if it is an ordinary name in UTF-8.
    pub fn file_name_text(&self) -> (res: Option<String>)
        ensures
            match file_name_of(self@) {
                Some(n) => if valid_utf8(n) {
                    res matches Some(t) && t@ == decode_utf8(n)
                } else {
                    res is None
                },
                None => res is None,
            },
    {
        match self.file_name() {
            Some(n) => text_of(&n),
            None => None,
        }
    }

    /// What follows the last dot of the file name.
    pub fn extension(&self) -> (res: Option<Vec<u8>>)
        ensures
            res matches Some(e) ==> extension_of(self@) == Some(e@),
            res is None ==> extension_of(self@) is None,
    {
        match self.file_name() {
            Some(name) => {
                let mut i: usize = name.len();
                assert(name@.take(name@.len() as int) == name@);
                while i > 0 && name[i - 1] != DOT
                    invariant
                        i <= name@.len(),
                        last_dot(name@) == last_dot(name@.take(i as int)),
                    ensures
                        i <= name@.len(),
                        last_dot(name@) == i - 1,
                    decreases i,
                {
                    assert(name@.take(i as int).last() == name@[i - 1]);
                    assert(name@.take(i as int).drop_last() == name@.take(i - 1));
                    i -= 1;
                    proof {
                        if i > 0 && name@[i - 1] == DOT {
                            assert(name@.take(i as int).last() == name@[i - 1]);
                        }
                    }
                }
                if i > 1 {
                    let e = stretch(&name, i, name.len());
                    assert(e@ == name@.skip(i as int));
                    Some(e)
                } else {
                    None
                }
            },
            None => None,
        }
    }

    /// The extension as text: empty where there is none, or none in UTF-8.
    pub fn extension_text(&self) -> (res: String)
        ensures
            res@ == extension_text_of(self@),
    {
        match self.extension() {
            Some(e) => match text_of(&e) {
                Some(t) => t,
                None => String::new(),
            },
            None => String::new(),
        }
    }

    /// What is left of `self` below `base`.
    pub fn strip_prefix(&self, base: &PathBuf) -> (res: Option<PathBuf>)
        ensures
            res matches Some(p) ==> stripped(self@, base@) == Some(p@),
            res is None ==> stripped(self@, base@) is None,
    {
        if !self.starts_with(base) {
            return None;
        }
        let n = base.depth();
        let s = spans_of(&self.bytes);
        proof {
            lemma_spans(self@);
            assert(spans(self@).len() == s@.len());
        }
        if n == s.len() {
            return Some(PathBuf { bytes: Vec::new() });
        }
        assert(spans(self@)[n as int] == ranges(s@)[n as int]);
        assert(spans(self@).last() == ranges(s@).last());
        proof {
            lemma_span_starts_grow(self@, n as int);
        }
        Some(PathBuf { bytes: stretch(&self.bytes, s[n].0, s[s.len() - 1].1) })
    }
}

/// The extension of a path as text: empty where there is none, or none in UTF-8.
pub open spec fn extension_text_of(b: Seq<u8>) -> Seq<char> {
    match extension_of(b) {
        Some(e) => if valid_utf8(e) {
            decode_utf8(e)
        } else {
            Seq::empty()
        },
        None => Seq::empty(),
    }
}

fn text_of(b: &Vec<u8>) -> (res: Option<String>)
    ensures
        res is Some <==> valid_utf8(b@),
        res matches Some(t) ==> t@ == decode_utf8(b@),
{
    match text::utf8_text(b.as_slice()) {
        Some(t) => {
            proof {
                encode_utf8_decode_utf8(t@);
            }
            Some(t.to_owned())
        },
        None => None,
    }
}

fn prefix_of(a: &Vec<Vec<u8>>, b: &Vec<Vec<u8>>) -> (res: bool)
    ensures
        res == deep(a@).is_prefix_of(deep(b@)),
        a@.len() == b@.len() ==> res == (deep(a@) == deep(b@)),
{
    let ghost x = deep(a@);
    let ghost y = deep(b@);
    if a.len() > b.len() {
        return false;
    }
    for i in 0..a.len()
        invariant
            x == deep(a@),
            y == deep(b@),
            a@.len() <= b@.len(),
            forall|j: int| 0 <= j < i ==> x[j] == y[j],
    {
        if !same_bytes(&a[i], &b[i]) {
            assert(x[i as int] != y[i as int]);
            assert(y.subrange(0, x.len() as int)[i as int] == y[i as int]);
            return false;
        }
        assert(x[i as int] == y[i as int]);
    }
    assert(y.subrange(0, x.len() as int) =~= x);
    assert(a@.len() == b@.len() ==> x =~= y);
    true
}

fn order_keys(a: &Vec<Vec<u8>>, b: &Vec<Vec<u8>>) -> (res: Order)
    ensures
        res == key_order(deep(a@), deep(b@)),
{
    let ghost x = deep(a@);
    let ghost y = deep(b@);
    let mut i: usize = 0;
    assert(x.skip(0) == x);
    assert(y.skip(0) == y);
    while i < a.len() && i < b.len()
        invariant
            x == deep(a@),
            y == deep(b@),
            i <= a@.len(),
            i <= b@.len(),
            key_order(x, y) == key_order(x.skip(i as int), y.skip(i as int)),
        decreases a@.len() - i,
    {
        assert(x.skip(i as int)[0] == a@[i as int]@);
        assert(y.skip(i as int)[0] == b@[i as int]@);
        assert(x.skip(i as int).drop_first() == x.skip(i + 1));
        assert(y.skip(i as int).drop_first() == y.skip(i + 1));
        let o = order_components(&a[i], &b[i]);
        match o {
            Order::Equal => {},
            _ => {
                return o;
            },
        }
        i += 1;
    }
    if i < b.len() {
        Order::Less
    } else if i < a.len() {
        Order::Greater
    } else {
        Order::Equal
    }
}

proof fn lemma_body_starts_grow(b: Seq<u8>, i: int, k: int)
    requires
        0 <= i <= b.len(),
        0 <= k < body_spans(b, i).len(),
    ensures
        i <= body_spans(b, i)[k].0 < body_spans(b, i).last().1 <= b.len(),
    decreases b.len() - i,
{
    lemma_body_spans(b, i);
    if b[i] == SLASH {
        lemma_body_starts_grow(b, i + 1, k);
    } else {
        lemma_segment_end(b, i);
        let e = segment_end(b, i);
        let rest = body_spans(b, e);
        if e == i + 1 && b[i] == DOT {
            lemma_body_starts_grow(b, e, k);
        } else if rest.len() > 0 {
            lemma_body_starts_grow(b, e, if k > 0 { k - 1 } else { 0 });
            assert(body_spans(b, i).last() == rest.last());
            if k > 0 {
                assert(body_spans(b, i)[k] == rest[k - 1]);
            }
        }
    }
}

proof fn lemma_span_starts_grow(b: Seq<u8>, k: int)
    requires
        0 <= k < spans(b).len(),
    ensures
        spans(b)[k].0 < spans(b).last().1 <= b.len(),
{
    let body = body_spans(b, 0);
    let head = (spans(b).len() - body.len()) as int;
    lemma_spans(b);
    if body.len() > 0 {
        lemma_body_starts_grow(b, 0, if k >= head { k - head } else { 0 });
        assert(spans(b).last() == body.last());
        if k >= head {
            assert(spans(b)[k] == body[k - head]);
        }
    }
}

impl PartialEq for PathBuf {
    fn eq(&self, other: &PathBuf) -> (res: bool) {
        self.same(other)
    }
}

impl vstd::std_specs::cmp::PartialEqSpecImpl for PathBuf {
    open spec fn obeys_eq_spec() -> bool {
        true
    }

    open spec fn eq_spec(&self, other: &PathBuf) -> bool {
        same_path(self@, other@)
    }
}

impl Eq for PathBuf {

}

impl Ranked for PathBuf {
    open spec fn le(&self, other: &PathBuf) -> bool {
        path_order(self@, other@) != Order::Greater
    }

    proof fn le_total(&self, other: &PathBuf) {
        lemma_key_order(components(self@), components(other@));
    }

    proof fn le_transitive(&self, mid: &PathBuf, other: &PathBuf) {
        lemma_key_order(components(self@), components(mid@));
        lemma_key_order(components(mid@), components(other@));
        if !same_path(self@, mid@) && !same_path(mid@, other@) {
            lemma_key_order_transitive(components(self@), components(mid@), components(other@));
        }
    }

    fn at_most(&self, other: &PathBuf) -> (res: bool) {
        self.order(other) != Order::Greater
    }
}

/// The bytes of each path of a list.
pub open spec fn path_bytes(s: Seq<PathBuf>) -> Seq<Seq<u8>> {
    s.map_values(|p: PathBuf| p@)
}

/// Whether no path of a list comes before an earlier one.
pub open spec fn is_sorted(s: Seq<Seq<u8>>) -> bool {
    forall|i: int, j: int|
        #![trigger s[i], s[j]]
        0 <= i < j < s.len() ==> path_order(s[i], s[j]) != Order::Greater
}

/// Whether `s` holds the paths of `all`, in order.
pub open spec fn is_sorted_form(s: Seq<Seq<u8>>, all: Seq<Seq<u8>>) -> bool {
    is_sorted(s) && s.to_multiset() == all.to_multiset()
}

/// The paths of a list, in order.
pub fn sort_paths(paths: &Vec<PathBuf>) -> (res: Vec<PathBuf>)
    ensures
        is_sorted_form(path_bytes(res@), path_bytes(paths@)),
        res@.len() == paths@.len(),
{
    let order = sorting::sort_positions(paths);
    let mut res: Vec<PathBuf> = Vec::new();
    for i in 0..order.len()
        invariant
            sorting::is_sorting(paths@, order@),
            res@.len() == i,
            forall|k: int|
                #![trigger res@[k]]
                0 <= k < i ==> res@[k]@ == paths@[order@[k] as int]@,
    {
        res.push(paths[order[i]].clone());
    }
    proof {
        let from = path_bytes(paths@);
        let to = path_bytes(res@);
        sorting::lemma_sorting_is_permutation(paths@, order@);
        assert forall|i: int| #![trigger to[i]] 0 <= i < to.len() implies to[i] == from[order@[i] as int] by {
            assert(to[i] == res@[i]@);
        }
        assert(from.len() == paths.len());
        sorting::lemma_permuted_multiset(from, order@, to);
        assert forall|i: int, j: int|
            #![trigger to[i], to[j]]
            0 <= i < j < to.len() implies path_order(to[i], to[j]) != Order::Greater by {
            assert(to[i] == res@[i]@ && to[j] == res@[j]@);
            assert(sorting::ahead(paths@, order@[i] as int, order@[j] as int));
        }
    }
    res
}

// --- Laws ------------------------------------------------------------------

/// The opposite outcome of a comparison.
pub open spec fn flipped(o: Order) -> Order {
    match o {
        Order::Less => Order::Greater,
        Order::Equal => Order::Equal,
        Order::Greater => Order::Less,
    }
}

proof fn lemma_byte_order(a: Seq<u8>, b: Seq<u8>)
    ensures
        byte_order(a, b) == Order::Equal <==> a == b,
        byte_order(b, a) == flipped(byte_order(a, b)),
    decreases a.len(),
{
    if a.len() > 0 && b.len() > 0 {
        lemma_byte_order(a.drop_first(), b.drop_first());
        assert(a =~= seq![a[0]] + a.drop_first());
        assert(b =~= seq![b[0]] + b.drop_first());
    } else {
        assert(a.len() == 0 && b.len() == 0 ==> a =~= b);
    }
}

proof fn lemma_byte_order_transitive(a: Seq<u8>, b: Seq<u8>, c: Seq<u8>)
    requires
        byte_order(a, b) == Order::Less,
        byte_order(b, c) == Order::Less,
    ensures
        byte_order(a, c) == Order::Less,
    decreases a.len(),
{
    if a.len() > 0 && a[0] == b[0] && b[0] == c[0] {
        lemma_byte_order_transitive(a.drop_first(), b.drop_first(), c.drop_first());
    }
}

proof fn lemma_component_order(a: Seq<u8>, b: Seq<u8>)
    ensures
        component_order(a, b) == Order::Equal <==> a == b,
        component_order(b, a) == flipped(component_order(a, b)),
{
    lemma_byte_order(a, b);
}

proof fn lemma_component_order_transitive(a: Seq<u8>, b: Seq<u8>, c: Seq<u8>)
    requires
        component_order(a, b) == Order::Less,
        component_order(b, c) == Order::Less,
    ensures
        component_order(a, c) == Order::Less,
{
    if component_rank(a) == component_rank(b) && component_rank(b) == component_rank(c) {
        lemma_byte_order_transitive(a, b, c);
    }
}

/// Comparing component lists is a total order: equal exactly for equal lists,
/// and reversed when the two sides are exchanged.
pub proof fn lemma_key_order(a: Seq<Seq<u8>>, b: Seq<Seq<u8>>)
    ensures
        key_order(a, b) == Order::Equal <==> a == b,
        key_order(b, a) == flipped(key_order(a, b)),
    decreases a.len(),
{
    if a.len() > 0 && b.len() > 0 {
        lemma_component_order(a[0], b[0]);
        lemma_key_order(a.drop_first(), b.drop_first());
        assert(a =~= seq![a[0]] + a.drop_first());
        assert(b =~= seq![b[0]] + b.drop_first());
    } else {
        assert(a.len() == 0 && b.len() == 0 ==> a =~= b);
    }
}

/// Comparing component lists is transitive.
pub proof fn lemma_key_order_transitive(a: Seq<Seq<u8>>, b: Seq<Seq<u8>>, c: Seq<Seq<u8>>)
    requires
        key_order(a, b) == Order::Less,
        key_order(b, c) == Order::Less,
    ensures
        key_order(a, c) == Order::Less,
    decreases a.len(),
{
    if a.len() > 0 {
        lemma_component_order(a[0], b[0]);
        lemma_component_order(b[0], c[0]);
        if a[0] == b[0] && b[0] == c[0] {
            lemma_key_order_transitive(a.drop_first(), b.drop_first(), c.drop_first());
        } else if a[0] != b[0] && b[0] != c[0] {
            lemma_component_order_transitive(a[0], b[0], c[0]);
        }
    }
}

proof fn lemma_body_spans_split(a: Seq<u8>, c: Seq<u8>, i: int)
    requires
        0 <= i <= a.len() <= c.len(),
        a == c.take(a.len() as int),
        a.len() == c.len() || c[a.len() as int] == SLASH || (a.len() > 0 && a.last() == SLASH),
    ensures
        body_spans(c, i) == body_spans(a, i) + body_spans(c, a.len() as int),
    decreases a.len() - i,
{
    if i == a.len() {
        assert(body_spans(a, i) =~= Seq::<(int, int)>::empty());
        assert(body_spans(c, i) =~= body_spans(a, i) + body_spans(c, i));
    } else {
        assert(c[i] == a[i]);
        if a[i] == SLASH {
            lemma_body_spans_split(a, c, i + 1);
        } else {
            lemma_segment_end(a, i);
            lemma_segment_end(c, i);
            let e = segment_end(a, i);
            let f = segment_end(c, i);
            assert(e == f) by {
                if f < e {
                    assert(c[f] == a[f]);
                }
                if e < f {
                    if e < a.len() {
                        assert(c[e] == a[e]);
                    } else {
                        assert(a[a.len() - 1] != SLASH);
                        assert(c[a.len() as int] != SLASH);
                    }
                }
            }
            lemma_body_spans_split(a, c, e);
            if !(e == i + 1 && a[i] == DOT) {
                assert(body_spans(c, i) =~= seq![(i, e)] + (body_spans(a, e) + body_spans(
                    c,
                    a.len() as int,
                )));
            }
        }
    }
}

/// The ranges `s`, moved `off` positions to the right.
spec fn shifted(s: Seq<(int, int)>, off: int) -> Seq<(int, int)> {
    s.map_values(|r: (int, int)| (r.0 + off, r.1 + off))
}

proof fn lemma_segment_end_shift(b: Seq<u8>, c: Seq<u8>, off: int, i: int)
    requires
        0 <= i <= b.len(),
        0 <= off,
        off + b.len() == c.len(),
        b == c.skip(off),
    ensures
        segment_end(c, off + i) == off + segment_end(b, i),
    decreases b.len() - i,
{
    if i < b.len() {
        assert(b[i] == c[off + i]);
        if b[i] != SLASH {
            lemma_segment_end_shift(b, c, off, i + 1);
        }
    }
}

proof fn lemma_body_spans_shift(b: Seq<u8>, c: Seq<u8>, off: int, i: int)
    requires
        0 <= i <= b.len(),
        0 <= off,
        off + b.len() == c.len(),
        b == c.skip(off),
    ensures
        body_spans(c, off + i) == shifted(body_spans(b, i), off),
    decreases b.len() - i,
{
    if i < b.len() {
        assert(b[i] == c[off + i]);
        if b[i] == SLASH {
            lemma_body_spans_shift(b, c, off, i + 1);
        } else {
            lemma_segment_end(b, i);
            lemma_segment_end_shift(b, c, off, i);
            let e = segment_end(b, i);
            lemma_body_spans_shift(b, c, off, e);
            if !(e == i + 1 && b[i] == DOT) {
                assert(body_spans(c, off + i) =~= seq![(off + i, off + e)] + shifted(
                    body_spans(b, e),
                    off,
                ));
                assert(shifted(body_spans(b, i), off) =~= seq![(off + i, off + e)] + shifted(
                    body_spans(b, e),
                    off,
                ));
            } else {
                assert(shifted(body_spans(b, i), off) =~= shifted(body_spans(b, e), off));
            }
        }
    } else {
        assert(shifted(body_spans(b, i), off) =~= body_spans(c, off + i));
    }
}

/// The components of `rel` below a base: all but an opening `.`.
pub open spec fn body_components(rel: Seq<u8>) -> Seq<Seq<u8>> {
    body_spans(rel, 0).map_values(|s: (int, int)| rel.subrange(s.0, s.1))
}

proof fn lemma_joined_spans(base: Seq<u8>, rel: Seq<u8>)
    requires
        !is_rooted(rel),
        base.len() > 0,
    ensures
        ({
            let c = joined(base, rel);
            let off = (c.len() - rel.len()) as int;
            &&& base.len() <= off
            &&& c.take(base.len() as int) == base
            &&& c.skip(off) == rel
            &&& spans(c) == spans(base) + shifted(body_spans(rel, 0), off)
        }),
{
    let c = joined(base, rel);
    let off = (c.len() - rel.len()) as int;
    assert(c.skip(off) =~= rel);
    assert(c.take(base.len() as int) =~= base);
    assert(c[0] == base[0]);
    if base.len() < c.len() && base.last() != SLASH {
        assert(c[base.len() as int] == SLASH);
    }
    lemma_body_spans_split(base, c, 0);
    lemma_body_spans_shift(rel, c, off, 0);
    if off > base.len() {
        assert(body_spans(c, base.len() as int) == body_spans(c, off));
    }
    assert(opens_with_dot(c) == opens_with_dot(base)) by {
        if base.len() == 1 && c.len() > 1 {
            if base[0] == DOT {
                assert(c[1] == SLASH);
            }
        } else if base.len() > 1 {
            assert(c[1] == base[1]);
        }
    }
    assert(spans(c) =~= spans(base) + shifted(body_spans(rel, 0), off));
}

/// Joining a relative path to a base keeps the components of the base and
/// appends those of the relative path.
pub proof fn law_join_appends(base: Seq<u8>, rel: Seq<u8>)
    requires
        !is_rooted(rel),
        base.len() > 0,
    ensures
        components(joined(base, rel)) == components(base) + body_components(rel),
        is_within(joined(base, rel), base),
{
    let c = joined(base, rel);
    let off = (c.len() - rel.len()) as int;
    lemma_joined_spans(base, rel);
    lemma_spans(base);
    lemma_body_spans(rel, 0);
    let sb = spans(base);
    let sr = body_spans(rel, 0);
    let parts = components(base) + body_components(rel);
    assert forall|k: int| 0 <= k < spans(c).len() implies components(c)[k] == #[trigger] parts[k] by {
        if k < sb.len() {
            assert(spans(c)[k] == sb[k]);
            assert(c.subrange(sb[k].0, sb[k].1) =~= c.take(base.len() as int).subrange(
                sb[k].0,
                sb[k].1,
            ));
        } else {
            let j = k - sb.len();
            assert(spans(c)[k] == (sr[j].0 + off, sr[j].1 + off));
            assert(c.subrange(sr[j].0 + off, sr[j].1 + off) =~= c.skip(off).subrange(
                sr[j].0,
                sr[j].1,
            ));
        }
    }
    assert(components(c) =~= parts);
    assert(components(c).subrange(0, components(base).len() as int) =~= components(base));
}

/// Whether a component is a name or `..`: not empty, without a slash, and not `.`.
pub open spec fn is_part(c: Seq<u8>) -> bool {
    c.len() > 0 && !c.contains(SLASH) && c != seq![DOT]
}

proof fn lemma_body_parts(b: Seq<u8>, i: int)
    requires
        0 <= i <= b.len(),
    ensures
        forall|k: int|
            #![trigger body_spans(b, i)[k]]
            0 <= k < body_spans(b, i).len() ==> is_part(
                b.subrange(body_spans(b, i)[k].0, body_spans(b, i)[k].1),
            ),
    decreases b.len() - i,
{
    if i < b.len() {
        if b[i] == SLASH {
            lemma_body_parts(b, i + 1);
            assert(body_spans(b, i) == body_spans(b, i + 1));
        } else {
            lemma_segment_end(b, i);
            let e = segment_end(b, i);
            lemma_body_parts(b, e);
            if !(e == i + 1 && b[i] == DOT) {
                let c = b.subrange(i, e);
                assert(!c.contains(SLASH)) by {
                    if c.contains(SLASH) {
                        let j = choose|j: int| 0 <= j < c.len() && c[j] == SLASH;
                        assert(b[i + j] == SLASH);
                    }
                }
                if c == seq![DOT] {
                    assert(c[0] == b[i]);
                    assert(c.len() == 1);
                }
                assert forall|k: int|
                    #![trigger body_spans(b, i)[k]]
                    0 <= k < body_spans(b, i).len() implies is_part(
                    b.subrange(body_spans(b, i)[k].0, body_spans(b, i)[k].1),
                ) by {
                    if k > 0 {
                        assert(body_spans(b, i)[k] == body_spans(b, e)[k - 1]);
                    }
                }
            } else {
                assert(body_spans(b, i) == body_spans(b, e));
            }
        }
    }
}

/// A path consists of parts, behind a root or an opening `.` where it has one.
pub proof fn lemma_components_are_parts(b: Seq<u8>)
    ensures
        forall|k: int|
            #![trigger components(b)[k]]
            0 <= k < components(b).len() ==> is_part(components(b)[k]) || (k == 0
                && components(b)[k] == seq![b[0]] && (is_rooted(b) || opens_with_dot(b))),
{
    lemma_body_parts(b, 0);
    let h = spans(b).len() - body_spans(b, 0).len();
    assert forall|k: int|
        #![trigger components(b)[k]]
        0 <= k < components(b).len() implies is_part(components(b)[k]) || (k == 0
        && components(b)[k] == seq![b[0]] && (is_rooted(b) || opens_with_dot(b))) by {
        if k >= h {
            assert(spans(b)[k] == body_spans(b, 0)[k - h]);
        } else {
            assert(spans(b)[0] == (0int, 1int));
            assert(components(b)[0] =~= seq![b[0]]);
        }
    }
}

/// Joining a part appends it.
pub proof fn lemma_part_joins(base: Seq<u8>, c: Seq<u8>)
    requires
        base.len() > 0,
        is_part(c),
    ensures
        components(joined(base, c)) == components(base).push(c),
{
    assert(c[0] != SLASH) by {
        if c[0] == SLASH {
            assert(c.contains(SLASH));
        }
    }
    law_join_appends(base, c);
    lemma_segment_end(c, 0);
    let e = segment_end(c, 0);
    if e < c.len() {
        assert(c.contains(c[e]));
    }
    assert(!(e == 1 && c[0] == DOT)) by {
        if e == 1 && c[0] == DOT {
            assert(c =~= seq![DOT]);
        }
    }
    assert(body_spans(c, e) =~= Seq::empty());
    assert(body_spans(c, 0) =~= seq![(0int, e)]);
    assert(c.subrange(0, e) =~= c);
    assert(body_components(c) =~= seq![c]);
    assert(components(base) + seq![c] =~= components(base).push(c));
}

/// Joining a path that does not go up, and that does not lead out of the base, leads to
/// a place inside the base.
pub proof fn law_joined_lies_inside(base: Seq<u8>, rel: Seq<u8>)
    requires
        is_within(joined(base, rel), base),
        !climbs(rel),
    ensures
        lies_inside(joined(base, rel), base),
{
    let c = joined(base, rel);
    let n = components(base).len() as int;
    let rest = components(c).skip(n);
    if rest.contains(parent_dir()) {
        let k = choose|k: int| 0 <= k < rest.len() && rest[k] == parent_dir();
        if is_rooted(rel) || base.len() == 0 {
            assert(c =~= rel);
            assert(components(rel)[n + k] == parent_dir());
        } else {
            law_join_appends(base, rel);
            assert(rest =~= body_components(rel));
            let h = spans(rel).len() - body_spans(rel, 0).len();
            assert(spans(rel)[h + k] == body_spans(rel, 0)[k]);
            assert(components(rel)[h + k] == parent_dir());
        }
    }
}

/// A path overlaps itself.
pub proof fn lemma_same_overlaps(a: Seq<u8>, b: Seq<u8>)
    ensures
        same_path(a, b) ==> overlap(a, b),
        same_path(b, a) ==> overlap(a, b),
{
    let x = components(a);
    assert(x.subrange(0, x.len() as int) =~= x);
}

/// Two folders that do not overlap have nothing in common: no path lies within
/// both.
pub proof fn law_disjoint_folders(p: Seq<u8>, a: Seq<u8>, b: Seq<u8>)
    requires
        !overlap(a, b),
        is_within(p, a),
    ensures
        !is_within(p, b),
        !same_path(p, b),
{
    let x = components(a);
    let y = components(b);
    let z = components(p);
    if y.is_prefix_of(z) {
        if x.len() <= y.len() {
            assert(y.subrange(0, x.len() as int) =~= x) by {
                assert forall|i: int| 0 <= i < x.len() implies y[i] == x[i] by {
                    assert(z.subrange(0, x.len() as int)[i] == z[i]);
                    assert(z.subrange(0, y.len() as int)[i] == z[i]);
                }
            }
        } else {
            assert(x.subrange(0, y.len() as int) =~= y) by {
                assert forall|i: int| 0 <= i < y.len() implies x[i] == y[i] by {
                    assert(z.subrange(0, x.len() as int)[i] == z[i]);
                    assert(z.subrange(0, y.len() as int)[i] == z[i]);
                }
            }
        }
    }
    assert(y == z ==> z.subrange(0, y.len() as int) =~= y);
}

proof fn lemma_body_suffix(b: Seq<u8>, i: int, k: int)
    requires
        0 <= i <= b.len(),
        0 <= k < body_spans(b, i).len(),
    ensures
        ({
            let e = body_spans(b, i)[k].1;
            &&& 0 <= e <= b.len()
            &&& e == b.len() || b[e] == SLASH
            &&& body_spans(b, e) == body_spans(b, i).skip(k + 1)
        }),
    decreases b.len() - i,
{
    if b[i] == SLASH {
        lemma_body_suffix(b, i + 1, k);
    } else {
        lemma_segment_end(b, i);
        let e = segment_end(b, i);
        if e == i + 1 && b[i] == DOT {
            lemma_body_suffix(b, e, k);
        } else if k == 0 {
            assert(body_spans(b, i).skip(1) =~= body_spans(b, e));
        } else {
            lemma_body_suffix(b, e, k - 1);
            assert(body_spans(b, i)[k] == body_spans(b, e)[k - 1]);
            assert(body_spans(b, i).skip(k + 1) =~= body_spans(b, e).skip(k));
        }
    }
}

/// A parent has the components of its child but the last, and fewer bytes.
pub proof fn law_parent_components(b: Seq<u8>)
    ensures
        parent_of(b) matches Some(a) ==> {
            &&& a.len() < b.len()
            &&& components(b).len() > 0
            &&& components(a) == components(b).drop_last()
        },
{
    if let Some(a) = parent_of(b) {
        let s = spans(b);
        let n = s.len() as int;
        lemma_spans(b);
        if n == 1 {
            assert(components(a) =~= components(b).drop_last());
            assert(s[0].1 <= b.len());
        } else {
            let m = body_spans(b, 0).len() as int;
            let e = s[n - 2].1;
            assert(a =~= b.take(e));
            if n - m == 1 && n == 2 {
                assert(s[0] == (0int, 1int));
                assert(b.len() > 1) by {
                    if b.len() == 1 {
                        lemma_segment_end(b, 0);
                        assert(body_spans(b, 1) =~= Seq::empty());
                        assert(body_spans(b, 0) =~= Seq::empty());
                    }
                }
                assert(body_spans(a, 1) =~= Seq::empty());
                if a[0] != SLASH {
                    lemma_segment_end(a, 0);
                }
                assert(body_spans(a, 0) =~= Seq::empty());
                assert(spans(a) =~= s.drop_last());
            } else {
                let k = m - 2;
                assert(s[n - 2] == body_spans(b, 0)[k]);
                lemma_body_suffix(b, 0, k);
                lemma_body_spans_split(a, b, 0);
                assert(body_spans(b, e).len() == 1);
                assert(body_spans(a, 0) =~= body_spans(b, 0).drop_last());
                assert(a[0] == b[0]);
                lemma_body_spans(b, 0);
                if a.len() > 1 {
                    assert(a[1] == b[1]);
                } else if a[0] == DOT {
                    assert(segment_end(a, 1) == 1);
                    assert(segment_end(a, 0) == 1);
                    assert(body_spans(a, 1) =~= Seq::empty());
                    assert(body_spans(a, 0) =~= Seq::empty());
                }
                assert(spans(a) =~= s.drop_last());
            }
            lemma_spans(a);
            assert forall|j: int| 0 <= j < n - 1 implies components(a)[j] == components(b)[j] by {
                assert(spans(a)[j] == s[j]);
                assert(a.subrange(s[j].0, s[j].1) =~= b.subrange(s[j].0, s[j].1));
            }
            assert(components(a) =~= components(b).drop_last());
        }
    }
}

proof fn lemma_body_from(b: Seq<u8>, i: int, k: int)
    requires
        0 <= i <= b.len(),
        0 <= k < body_spans(b, i).len(),
    ensures
        ({
            let st = body_spans(b, i)[k].0;
            &&& 0 <= st < b.len()
            &&& b[st] != SLASH
            &&& !(b[st] == DOT && segment_end(b, st) == st + 1)
            &&& body_spans(b, st) == body_spans(b, i).skip(k)
        }),
    decreases b.len() - i,
{
    if b[i] == SLASH {
        lemma_body_from(b, i + 1, k);
    } else {
        lemma_segment_end(b, i);
        let e = segment_end(b, i);
        if e == i + 1 && b[i] == DOT {
            lemma_body_from(b, e, k);
        } else if k == 0 {
            assert(body_spans(b, i).skip(0) =~= body_spans(b, i));
        } else {
            lemma_body_from(b, e, k - 1);
            assert(body_spans(b, i)[k] == body_spans(b, e)[k - 1]);
            assert(body_spans(b, i).skip(k) =~= body_spans(b, e).skip(k - 1));
        }
    }
}

proof fn lemma_has_components(b: Seq<u8>)
    requires
        b.len() > 0,
    ensures
        components(b).len() > 0,
{
    if !is_rooted(b) && !opens_with_dot(b) {
        lemma_segment_end(b, 0);
        assert(body_spans(b, 0).len() > 0);
    }
}

/// What is left of a path below a base is relative and has the components that the
/// base does not have.
pub proof fn law_stripped_components(p: Seq<u8>, base: Seq<u8>)
    requires
        base.len() > 0,
    ensures
        stripped(p, base) matches Some(rel) ==> {
            &&& !is_rooted(rel)
            &&& components(rel) == components(p).skip(components(base).len() as int)
            &&& body_components(rel) == components(rel)
        },
{
    lemma_has_components(base);
    if let Some(rel) = stripped(p, base) {
        let s = spans(p);
        let n = components(base).len() as int;
        let rest = components(p).skip(n);
        if n == s.len() {
            assert(components(rel) =~= rest);
            assert(body_components(rel) =~= rest);
        } else {
            let body = body_spans(p, 0);
            let m = body.len() as int;
            let k = n - (s.len() - m);
            assert(s[n] == body[k]);
            assert(s.last() == body[m - 1]);
            lemma_body_suffix(p, 0, m - 1);
            let e = body[m - 1].1;
            let c = p.take(e);
            lemma_body_spans_split(c, p, 0);
            assert(body.skip(m) =~= Seq::empty());
            assert(body_spans(c, 0) =~= body);
            lemma_body_from(c, 0, k);
            let st = body[k].0;
            assert(rel =~= c.skip(st));
            lemma_body_spans_shift(rel, c, st, 0);
            assert(rel[0] == c[st]);
            assert(!opens_with_dot(rel)) by {
                if opens_with_dot(rel) {
                    if rel.len() > 1 {
                        assert(c[st + 1] == rel[1]);
                    }
                    assert(segment_end(c, st + 1) == st + 1);
                }
            }
            let r = body_spans(rel, 0);
            assert(spans(rel) =~= r);
            lemma_body_spans(rel, 0);
            assert(shifted(r, st) == body.skip(k));
            assert(r.len() == shifted(r, st).len());
            assert forall|j: int| 0 <= j < r.len() implies rel.subrange(r[j].0, r[j].1)
                == #[trigger] rest[j] by {
                assert(shifted(r, st)[j] == body.skip(k)[j]);
                assert(s[n + j] == body[k + j]);
                assert(rel.subrange(r[j].0, r[j].1) =~= p.subrange(s[n + j].0, s[n + j].1));
            }
            assert(components(rel) =~= rest);
            assert(body_components(rel) =~= rest);
        }
    }
}

/// What is left of a path below a base names the path again once it is joined to the
/// base.
pub proof fn law_stripped_joins_back(p: Seq<u8>, base: Seq<u8>)
    requires
        base.len() > 0,
    ensures
        stripped(p, base) matches Some(rel) ==> same_path(joined(base, rel), p),
{
    if let Some(rel) = stripped(p, base) {
        law_stripped_components(p, base);
        law_join_appends(base, rel);
        assert(components(p) =~= components(base) + components(rel)) by {
            let n = components(base).len() as int;
            assert(components(p).subrange(0, n) == components(base));
            assert(components(p) =~= components(p).subrange(0, n) + components(p).skip(n));
        }
    }
}

/// The root has no component but itself.
pub proof fn lemma_root_components()
    ensures
        components(seq![SLASH]) == seq![seq![SLASH]],
{
    let r = seq![SLASH];
    assert(body_spans(r, 1) =~= Seq::empty());
    assert(body_spans(r, 0) =~= Seq::empty());
    assert(spans(r) =~= seq![(0int, 1int)]);
    assert(r.subrange(0, 1) =~= r);
    assert(components(r) =~= seq![r]);
}

/// The parent of an absolute path is absolute.
pub proof fn lemma_rooted_parent(b: Seq<u8>)
    requires
        is_rooted(b),
    ensures
        parent_of(b) matches Some(a) ==> is_rooted(a),
{
    lemma_spans(b);
    if let Some(a) = parent_of(b) {
        let s = spans(b);
        assert(s[0] == (0int, 1int));
        assert(components(b)[0] =~= seq![SLASH]);
        assert(s.len() > 1);
        let e = s[s.len() - 2].1;
        assert(e > 0);
        assert(a[0] == b[0]);
    }
}

/// Names are ordered as byte strings, and what a folder holds by its names: of two files of
/// one folder the one comes first whose name does.
pub proof fn law_siblings_are_ordered_by_name(dir: Seq<u8>, a: Seq<u8>, b: Seq<u8>)
    requires
        dir.len() > 0,
        is_part(a),
        is_part(b),
        is_name(a),
        is_name(b),
    ensures
        path_order(joined(dir, a), joined(dir, b)) == byte_order(a, b),
{
    lemma_part_joins(dir, a);
    lemma_part_joins(dir, b);
    lemma_key_order_push(components(dir), a, b);
}

proof fn lemma_key_order_push(k: Seq<Seq<u8>>, a: Seq<u8>, b: Seq<u8>)
    requires
        is_name(a),
        is_name(b),
    ensures
        key_order(k.push(a), k.push(b)) == byte_order(a, b),
    decreases k.len(),
{
    let x = k.push(a);
    let y = k.push(b);
    if k.len() > 0 {
        assert(x[0] == k[0] && y[0] == k[0]);
        lemma_component_order(k[0], k[0]);
        lemma_key_order_push(k.drop_first(), a, b);
        assert(x.drop_first() =~= k.drop_first().push(a));
        assert(y.drop_first() =~= k.drop_first().push(b));
    } else {
        assert(x.drop_first() =~= Seq::empty());
        assert(y.drop_first() =~= Seq::empty());
        assert(x[0] == a && y[0] == b);
        assert(key_order(x.drop_first(), y.drop_first()) == Order::Equal);
        assert(component_order(a, b) == byte_order(a, b));
    }
}

/// Byte strings are ordered by the first byte in which they differ, whatever follows.
pub proof fn law_bytes_are_ordered_by_the_first_difference(
    head: Seq<u8>,
    x: u8,
    y: u8,
    a: Seq<u8>,
    b: Seq<u8>,
)
    ensures
        x < y ==> byte_order(head.push(x) + a, head.push(y) + b) == Order::Less,
        byte_order(head, head.push(x) + a) == Order::Less,
    decreases head.len(),
{
    let p = head.push(x) + a;
    let q = head.push(y) + b;
    if head.len() > 0 {
        law_bytes_are_ordered_by_the_first_difference(head.drop_first(), x, y, a, b);
        assert(p.drop_first() =~= head.drop_first().push(x) + a);
        assert(q.drop_first() =~= head.drop_first().push(y) + b);
    }
}

/// The extension of a file is what follows the last dot of its name, where something
/// precedes that dot; a name without such a dot has none.
pub proof fn law_extensions_follow_the_last_dot(p: Seq<u8>, stem: Seq<u8>, ext: Seq<u8>)
    requires
        !ext.contains(DOT),
    ensures
        file_name_of(p) == Some(stem + seq![DOT] + ext) && stem.len() > 0 ==> extension_of(p)
            == Some(ext),
        file_name_of(p) == Some(ext) ==> extension_of(p) is None,
        file_name_of(p) == Some(seq![DOT] + ext) ==> extension_of(p) is None,
        file_name_of(p) is None ==> extension_of(p) is None,
{
    lemma_no_dot(ext);
    lemma_last_dot(stem, ext);
    lemma_last_dot(Seq::empty(), ext);
    let name = stem + seq![DOT] + ext;
    assert(name.skip(stem.len() as int + 1) =~= ext);
    assert(Seq::<u8>::empty() + seq![DOT] + ext =~= seq![DOT] + ext);
}

proof fn lemma_no_dot(s: Seq<u8>)
    requires
        !s.contains(DOT),
    ensures
        last_dot(s) == -1,
    decreases s.len(),
{
    if s.len() > 0 {
        assert(s.contains(s[s.len() - 1]));
        let t = s.drop_last();
        assert(!t.contains(DOT)) by {
            if t.contains(DOT) {
                let k = choose|k: int| 0 <= k < t.len() && t[k] == DOT;
                assert(s[k] == DOT);
            }
        }
        lemma_no_dot(t);
    }
}

proof fn lemma_last_dot(stem: Seq<u8>, ext: Seq<u8>)
    requires
        !ext.contains(DOT),
    ensures
        last_dot(stem + seq![DOT] + ext) == stem.len(),
    decreases ext.len(),
{
    let name = stem + seq![DOT] + ext;
    if ext.len() > 0 {
        assert(ext.contains(ext[ext.len() - 1]));
        let t = ext.drop_last();
        assert(!t.contains(DOT)) by {
            if t.contains(DOT) {
                let k = choose|k: int| 0 <= k < t.len() && t[k] == DOT;
                assert(ext[k] == DOT);
            }
        }
        lemma_last_dot(stem, t);
        assert(name.drop_last() =~= stem + seq![DOT] + t);
    } else {
        assert(name.last() == DOT);
    }
}

/// A path ends with the name that was joined to it, and going up leads back.
pub proof fn law_names_are_joined_and_left(dir: Seq<u8>, name: Seq<u8>)
    requires
        dir.len() > 0,
        is_part(name),
        is_name(name),
    ensures
        file_name_of(joined(dir, name)) == Some(name),
        parent_of(joined(dir, name)) matches Some(up) && same_path(up, dir),
        stripped(joined(dir, name), dir) matches Some(rel) && components(rel) == seq![name],
{
    let p = joined(dir, name);
    lemma_part_joins(dir, name);
    law_parent_components(p);
    let d = components(dir);
    assert(d.push(name).drop_last() =~= d);
    assert(components(p).last() == name);
    assert(d.push(name).subrange(0, d.len() as int) =~= d);
    law_stripped_components(p, dir);
    assert(d.push(name).skip(d.len() as int) =~= seq![name]);
}

/// What a path has below a base consists of parts.
pub proof fn lemma_body_components_are_parts(rel: Seq<u8>, k: int)
    requires
        0 <= k < body_components(rel).len(),
    ensures
        is_part(body_components(rel)[k]),
{
    lemma_body_parts(rel, 0);
    assert(body_spans(rel, 0)[k] == body_spans(rel, 0)[k]);
}

} // verus!
