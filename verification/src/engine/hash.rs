//! Content hashing with blake3.

use vstd::prelude::*;

use crate::path::same_bytes;

verus! {

/// An incremental blake3 hasher.
#[verifier::external_type_specification]
#[verifier::external_body]
pub struct ExHasher(blake3::Hasher);

/// Whether a hasher computes the default, unkeyed hash from the start of its
/// input, as the one that `blake3::Hasher::new` makes.
pub uninterp spec fn is_plain(h: blake3::Hasher) -> bool;

/// The bytes that a hasher has been fed so far.
pub uninterp spec fn absorbed(h: blake3::Hasher) -> Seq<u8>;

/// The blake3 hash of a byte string.
pub uninterp spec fn blake3_digest(bytes: Seq<u8>) -> Seq<u8>;

/// `blake3::Hasher::new` starts a plain hasher that has been fed nothing.
#[verifier::external_body]
fn start() -> (res: blake3::Hasher)
    ensures
        is_plain(res),
        absorbed(res) == Seq::<u8>::empty(),
{
    blake3::Hasher::new()
}

/// `blake3::Hasher::update` feeds `input` to the hasher, after what it has been
/// fed before.
#[verifier::external_body]
fn feed(h: &mut blake3::Hasher, input: &[u8])
    requires
        is_plain(*old(h)),
    ensures
        is_plain(*final(h)),
        absorbed(*final(h)) == absorbed(*old(h)) + input@,
    no_unwind
{
    h.update(input);
}

/// `blake3::Hasher::finalize` gives the hash of all bytes fed so far, 32 bytes
/// long; which bytes those are is left to the name [`blake3_digest`].
#[verifier::external_body]
fn finish(h: &blake3::Hasher) -> (res: Vec<u8>)
    requires
        is_plain(*h),
    ensures
        res@ == blake3_digest(absorbed(*h)),
        res@.len() == 32,
{
    h.finalize().as_bytes().to_vec()
}

/// The content hash of a file.
#[derive(Debug, PartialEq, Eq)]
pub struct Digest {
    pub bytes: Vec<u8>,
}

impl View for Digest {
    type V = Seq<u8>;

    open spec fn view(&self) -> Seq<u8> {
        self.bytes@
    }
}

impl Digest {
    /// Whether two digests are the same.
    pub fn same(&self, other: &Digest) -> (res: bool)
        ensures
            res == (self@ == other@),
    {
        same_bytes(&self.bytes, &other.bytes)
    }
}

/// Hashes a file that is read piece by piece.
pub struct ContentHasher {
    inner: blake3::Hasher,
}

impl View for ContentHasher {
    type V = Seq<u8>;

    closed spec fn view(&self) -> Seq<u8> {
        absorbed(self.inner)
    }
}

impl ContentHasher {
    #[verifier::type_invariant]
    spec fn inv(&self) -> bool {
        is_plain(self.inner)
    }

    /// A hasher that has seen nothing.
    pub fn new() -> (res: ContentHasher)
        ensures
            res@ == Seq::<u8>::empty(),
    {
        ContentHasher { inner: start() }
    }

    /// Take in the next piece of the contents.
    pub fn update(&mut self, piece: &[u8])
        ensures
            final(self)@ == old(self)@ + piece@,
    {
        proof {
            use_type_invariant(&*self);
        }
        feed(&mut self.inner, piece);
    }

    /// The hash of everything taken in.
    pub fn finalize(&self) -> (res: Digest)
        ensures
            res@ == blake3_digest(self@),
    {
        proof {
            use_type_invariant(self);
        }
        Digest { bytes: finish(&self.inner) }
    }
}

/// All pieces of a file in one.
pub open spec fn glued(pieces: Seq<Vec<u8>>) -> Seq<u8>
    decreases pieces.len(),
{
    if pieces.len() == 0 {
        Seq::empty()
    } else {
        glued(pieces.drop_last()) + pieces.last()@
    }
}

/// The hash of a file given as the pieces in which it was read. How the contents
/// are cut into pieces makes no difference.
pub fn hash_pieces(pieces: &Vec<Vec<u8>>) -> (res: Digest)
    ensures
        res@ == blake3_digest(glued(pieces@)),
{
    let mut h = ContentHasher::new();
    for i in 0..pieces.len()
        invariant
            h@ == glued(pieces@.take(i as int)),
    {
        h.update(pieces[i].as_slice());
        assert(pieces@.take(i + 1).drop_last() =~= pieces@.take(i as int));
    }
    assert(pieces@.take(pieces@.len() as int) =~= pieces@);
    h.finalize()
}

// --- Laws ------------------------------------------------------------------

/// What is hashed piece by piece is the pieces put together, in order.
pub proof fn law_pieces_are_put_together(pieces: Seq<Vec<u8>>)
    ensures
        glued(pieces) == pieces.map_values(|p: Vec<u8>| p@).flatten(),
    decreases pieces.len(),
{
    let all = pieces.map_values(|p: Vec<u8>| p@);
    if pieces.len() > 0 {
        let front = pieces.drop_last();
        law_pieces_are_put_together(front);
        let rest = front.map_values(|p: Vec<u8>| p@);
        assert(all =~= rest.push(pieces.last()@));
        rest.lemma_flatten_push(pieces.last()@);
    } else {
        assert(all =~= Seq::empty());
    }
}

} // verus!
