//! Hashing capabilities: key byte representations, streaming hashers, and
//! builders that hand the table a fresh hasher per key.
//!
//! The table needs one thing from a hasher: that the `(hash, tag)` pair it
//! emits is a function of the absorbed bytes alone, so that the probe walk
//! for a key retraces the walk its insertion took.  `HasherExt::hash_pair`
//! names that function, per hasher type, and every implementation proves
//! its `finish_ext` against it.

use vstd::prelude::*;

verus! {

/// Seed of the 64-bit FNV-1a hash.
pub const FNV_OFFSET_BASIS: u64 = 0xcbf2_9ce4_8422_2325;

/// Multiplier of the 64-bit FNV-1a hash.
pub const FNV_PRIME: u64 = 0x0000_0100_0000_01b3;

/// One FNV-1a round: fold one byte into the running state.
pub open spec fn fnv1a_step(h: u64, b: u8) -> u64 {
    (h ^ (b as u64)).wrapping_mul(FNV_PRIME)
}

/// The 64-bit FNV-1a hash of a byte sequence.
pub open spec fn fnv1a(s: Seq<u8>) -> u64
    decreases s.len(),
{
    if s.len() == 0 {
        FNV_OFFSET_BASIS
    } else {
        fnv1a_step(fnv1a(s.drop_last()), s.last())
    }
}

/// The default tag derivation: the top seven bits of the full hash.
pub open spec fn tag_from_hash(h: u64) -> u8 {
    (h >> 57) as u8
}

/// A streaming hasher that, once fed a key's bytes, emits a 64-bit hash
/// together with a tag fragment.  `hash_pair` fixes, per hasher type, what
/// pair a given byte sequence produces, so two hashers of the same type
/// always agree.
pub trait HasherExt: Sized {
    /// Internal consistency of the running state.
    spec fn inv(&self) -> bool;

    /// The bytes absorbed so far.
    spec fn absorbed(&self) -> Seq<u8>;

    /// The `(hash, tag)` pair this hasher type assigns to a byte sequence.
    spec fn hash_pair(s: Seq<u8>) -> (u64, u8);

    /// Absorb `bytes`.
    fn write(&mut self, bytes: &[u8])
        requires
            old(self).inv(),
        ensures
            final(self).inv(),
            final(self).absorbed() == old(self).absorbed() + bytes@,
    ;

    /// Finish, reporting the full hash and the tag fragment.
    fn finish_ext(&self) -> (r: (u64, u8))
        requires
            self.inv(),
        ensures
            r == Self::hash_pair(self.absorbed()),
    ;
}

/// A configuration value that hands out a fresh hasher per key.
pub trait BuildHasherExt: Sized {
    /// The hasher this builder produces.
    type ExtHasher: HasherExt;

    /// A fresh hasher that has absorbed nothing yet.
    fn build_hasher_ext(&self) -> (h: Self::ExtHasher)
        ensures
            h.inv(),
            h.absorbed() == Seq::<u8>::empty(),
    ;
}

/// The default hasher: 64-bit FNV-1a over the key's bytes, tag taken from
/// the hash's top seven bits.  It is its own builder.
pub struct DefaultHasherWrapper {
    state: u64,
    trace: Ghost<Seq<u8>>,
}

impl DefaultHasherWrapper {
    /// A fresh FNV-1a hasher.
    pub fn new() -> (h: Self)
        ensures
            h.inv(),
            h.absorbed() == Seq::<u8>::empty(),
    {
        DefaultHasherWrapper { state: FNV_OFFSET_BASIS, trace: Ghost(Seq::empty()) }
    }
}

impl HasherExt for DefaultHasherWrapper {
    closed spec fn inv(&self) -> bool {
        self.state == fnv1a(self.trace@)
    }

    closed spec fn absorbed(&self) -> Seq<u8> {
        self.trace@
    }

    open spec fn hash_pair(s: Seq<u8>) -> (u64, u8) {
        (fnv1a(s), tag_from_hash(fnv1a(s)))
    }

    fn write(&mut self, bytes: &[u8]) {
        let n = bytes.len();
        let mut i: usize = 0;
        while i < n
            invariant
                i <= n,
                n == bytes@.len(),
                self.trace@ == old(self).trace@ + bytes@.take(i as int),
                self.state == fnv1a(self.trace@),
            decreases n - i,
        {
            let b = bytes[i];
            proof {
                let t = self.trace@.push(b);
                assert(t.drop_last() =~= self.trace@);
                assert(old(self).trace@ + bytes@.take(i + 1) =~= t);
            }
            self.state = (self.state ^ (b as u64)).wrapping_mul(FNV_PRIME);
            self.trace = Ghost(self.trace@.push(b));
            i = i + 1;
        }
        proof {
            assert(bytes@.take(n as int) =~= bytes@);
        }
    }

    fn finish_ext(&self) -> (r: (u64, u8)) {
        (self.state, (self.state >> 57) as u8)
    }
}

impl BuildHasherExt for DefaultHasherWrapper {
    type ExtHasher = DefaultHasherWrapper;

    fn build_hasher_ext(&self) -> (h: DefaultHasherWrapper) {
        DefaultHasherWrapper::new()
    }
}

impl Default for DefaultHasherWrapper {
    /// A fresh FNV-1a builder.
    fn default() -> (h: Self)
        ensures
            h.inv(),
            h.absorbed() == Seq::<u8>::empty(),
    {
        DefaultHasherWrapper::new()
    }
}

/// A builder whose hashers assign every byte sequence the pair `(0, 0)`.
/// Every key then lands in the same home chunk with the same tag, which
/// drives the probe walk through its worst case; useful for exercising
/// collision handling.
pub struct FixedHasher;

/// The hasher `FixedHasher` builds.
pub struct FixedHasherImpl {
    trace: Ghost<Seq<u8>>,
}

impl HasherExt for FixedHasherImpl {
    closed spec fn inv(&self) -> bool {
        true
    }

    closed spec fn absorbed(&self) -> Seq<u8> {
        self.trace@
    }

    open spec fn hash_pair(s: Seq<u8>) -> (u64, u8) {
        (0u64, 0u8)
    }

    fn write(&mut self, bytes: &[u8]) {
        self.trace = Ghost(self.trace@ + bytes@);
    }

    fn finish_ext(&self) -> (r: (u64, u8)) {
        (0, 0)
    }
}

impl BuildHasherExt for FixedHasher {
    type ExtHasher = FixedHasherImpl;

    fn build_hasher_ext(&self) -> (h: FixedHasherImpl) {
        FixedHasherImpl { trace: Ghost(Seq::empty()) }
    }
}

impl Default for FixedHasher {
    /// The constant-hash builder carries no state.
    fn default() -> (h: Self) {
        FixedHasher
    }
}

/// A key the table can store: it can report the bytes to hash and decide
/// equality, both in agreement with its view.
pub trait MapKey: View + Sized {
    /// The byte string that stands for a key with this view.
    spec fn byte_repr(v: Self::V) -> Seq<u8>;

    /// Equality of keys, agreeing with equality of views.
    fn key_eq(&self, other: &Self) -> (b: bool)
        ensures
            b == (self@ == other@),
    ;

    /// The bytes fed to the hasher for this key.
    fn hash_bytes(&self) -> (r: Vec<u8>)
        ensures
            r@ == Self::byte_repr(self@),
    ;
}

/// The little-endian byte string of a 64-bit value.
pub open spec fn u64_le_bytes(v: u64) -> Seq<u8> {
    seq![
        v as u8,
        (v >> 8) as u8,
        (v >> 16) as u8,
        (v >> 24) as u8,
        (v >> 32) as u8,
        (v >> 40) as u8,
        (v >> 48) as u8,
        (v >> 56) as u8,
    ]
}

/// The little-endian bytes of a 64-bit value, as a vector.
fn u64_le_bytes_exec(v: u64) -> (r: Vec<u8>)
    ensures
        r@ == u64_le_bytes(v),
{
    let mut r: Vec<u8> = Vec::new();
    r.push(v as u8);
    r.push((v >> 8) as u8);
    r.push((v >> 16) as u8);
    r.push((v >> 24) as u8);
    r.push((v >> 32) as u8);
    r.push((v >> 40) as u8);
    r.push((v >> 48) as u8);
    r.push((v >> 56) as u8);
    proof {
        assert(r@ =~= u64_le_bytes(v));
    }
    r
}

impl MapKey for u64 {
    open spec fn byte_repr(v: u64) -> Seq<u8> {
        u64_le_bytes(v)
    }

    fn key_eq(&self, other: &Self) -> (b: bool) {
        *self == *other
    }

    fn hash_bytes(&self) -> (r: Vec<u8>) {
        u64_le_bytes_exec(*self)
    }
}

impl MapKey for usize {
    open spec fn byte_repr(v: usize) -> Seq<u8> {
        u64_le_bytes(v as u64)
    }

    fn key_eq(&self, other: &Self) -> (b: bool) {
        *self == *other
    }

    fn hash_bytes(&self) -> (r: Vec<u8>) {
        u64_le_bytes_exec(*self as u64)
    }
}

impl MapKey for u32 {
    open spec fn byte_repr(v: u32) -> Seq<u8> {
        u64_le_bytes(v as u64)
    }

    fn key_eq(&self, other: &Self) -> (b: bool) {
        *self == *other
    }

    fn hash_bytes(&self) -> (r: Vec<u8>) {
        u64_le_bytes_exec(*self as u64)
    }
}

impl MapKey for i32 {
    open spec fn byte_repr(v: i32) -> Seq<u8> {
        u64_le_bytes(v as u64)
    }

    fn key_eq(&self, other: &Self) -> (b: bool) {
        *self == *other
    }

    fn hash_bytes(&self) -> (r: Vec<u8>) {
        u64_le_bytes_exec(*self as u64)
    }
}

impl MapKey for i64 {
    open spec fn byte_repr(v: i64) -> Seq<u8> {
        u64_le_bytes(v as u64)
    }

    fn key_eq(&self, other: &Self) -> (b: bool) {
        *self == *other
    }

    fn hash_bytes(&self) -> (r: Vec<u8>) {
        u64_le_bytes_exec(*self as u64)
    }
}

impl MapKey for String {
    open spec fn byte_repr(v: Seq<char>) -> Seq<u8> {
        vstd::utf8::encode_utf8(v)
    }

    fn key_eq(&self, other: &Self) -> (b: bool) {
        *self == *other
    }

    fn hash_bytes(&self) -> (r: Vec<u8>) {
        vstd::slice::slice_to_vec(self.as_str().as_bytes())
    }
}

} // verus!
