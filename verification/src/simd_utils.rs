//! Control-byte protocol and the per-chunk scan kernels.
//!
//! One control byte per slot encodes that slot's state: `EMPTY`, `DELETED`
//! (a tombstone), or — when the high bit is clear — full, with the low seven
//! bits holding the tag derived from the key's hash.  The kernels scan one
//! `CHUNK_SIZE`-byte window of the control array at a time.  A kernel
//! implementation is correct exactly when it agrees with `Scalar`, whose
//! behaviour is written out in the `SimdStrategy` contracts.

use vstd::prelude::*;

verus! {

/// Number of slots scanned as one unit.
pub const CHUNK_SIZE: usize = 16;

/// Alignment wide enough for the widest vector load a kernel may use.
pub const SIMD_ALIGNMENT: usize = 64;

/// Control byte of a slot that holds nothing and never did since the last
/// clear or rebuild.
pub const EMPTY: u8 = 0x80;

/// Control byte of a slot vacated by a removal; it keeps probe walks going.
pub const DELETED: u8 = 0x81;

/// Mask selecting the seven tag bits of a full slot's control byte.
pub const FULL_MASK: u8 = 0x7f;

/// A control byte marks a full slot exactly when its high bit is clear.
pub open spec fn is_full_byte(b: u8) -> bool {
    b < 128
}

/// A control byte marks a reusable slot exactly when it is `EMPTY` or
/// `DELETED`.
pub open spec fn is_free_byte(b: u8) -> bool {
    b == EMPTY || b == DELETED
}

/// One chunk-wide scan unit.  All methods treat `ctrls` as a window of
/// exactly `CHUNK_SIZE` control bytes (except `fill_ctrls`, which writes a
/// prefix of any length).
pub trait SimdStrategy {
    /// Index of the lowest-numbered byte in the window equal to `fragment`.
    fn find_match(ctrls: &[u8], fragment: u8) -> (r: Option<usize>)
        requires
            ctrls@.len() == CHUNK_SIZE,
        ensures
            match r {
                Some(i) => i < CHUNK_SIZE && ctrls@[i as int] == fragment
                    && forall|j: int| 0 <= j < i ==> ctrls@[j] != fragment,
                None => forall|j: int| 0 <= j < CHUNK_SIZE ==> ctrls@[j] != fragment,
            },
    ;

    /// Index of the lowest-numbered byte in the window that is `EMPTY` or
    /// `DELETED`.  Treating tombstones as reusable is what lets an insert
    /// reclaim their space.
    fn find_empty(ctrls: &[u8]) -> (r: Option<usize>)
        requires
            ctrls@.len() == CHUNK_SIZE,
        ensures
            match r {
                Some(i) => i < CHUNK_SIZE && is_free_byte(ctrls@[i as int])
                    && forall|j: int| 0 <= j < i ==> !is_free_byte(ctrls@[j]),
                None => forall|j: int| 0 <= j < CHUNK_SIZE ==> !is_free_byte(ctrls@[j]),
            },
    ;

    /// Write `value` into the first `count` bytes of `ctrls`.
    fn fill_ctrls(ctrls: &mut Vec<u8>, value: u8, count: usize)
        requires
            count <= old(ctrls)@.len(),
        ensures
            final(ctrls)@.len() == old(ctrls)@.len(),
            forall|j: int| 0 <= j < count ==> final(ctrls)@[j] == value,
            forall|j: int| count <= j < old(ctrls)@.len()
                ==> final(ctrls)@[j] == old(ctrls)@[j],
    ;
}

/// The scalar kernel: one byte at a time.  It is the reference all other
/// kernels must agree with.
pub struct Scalar;

impl SimdStrategy for Scalar {
    fn find_match(ctrls: &[u8], fragment: u8) -> (r: Option<usize>)
    {
        let mut i: usize = 0;
        while i < CHUNK_SIZE
            invariant
                i <= CHUNK_SIZE,
                ctrls@.len() == CHUNK_SIZE,
                forall|j: int| 0 <= j < i ==> ctrls@[j] != fragment,
            decreases CHUNK_SIZE - i,
        {
            if ctrls[i] == fragment {
                return Some(i);
            }
            i = i + 1;
        }
        None
    }

    fn find_empty(ctrls: &[u8]) -> (r: Option<usize>)
    {
        let mut i: usize = 0;
        while i < CHUNK_SIZE
            invariant
                i <= CHUNK_SIZE,
                ctrls@.len() == CHUNK_SIZE,
                forall|j: int| 0 <= j < i ==> !is_free_byte(ctrls@[j]),
            decreases CHUNK_SIZE - i,
        {
            let c = ctrls[i];
            if c == EMPTY || c == DELETED {
                return Some(i);
            }
            i = i + 1;
        }
        None
    }

    fn fill_ctrls(ctrls: &mut Vec<u8>, value: u8, count: usize)
    {
        let mut i: usize = 0;
        while i < count
            invariant
                i <= count,
                count <= ctrls@.len(),
                ctrls@.len() == old(ctrls)@.len(),
                forall|j: int| 0 <= j < i ==> ctrls@[j] == value,
                forall|j: int| i <= j < old(ctrls)@.len() ==> ctrls@[j] == old(ctrls)@[j],
            decreases count - i,
        {
            ctrls[i] = value;
            i = i + 1;
        }
    }
}

/// Clamp a hash fragment into the tag range by clearing its high bit, so
/// that it can be stored as the control byte of a full slot.
pub fn make_ctrl_byte(hash_frag: u8) -> (b: u8)
    ensures
        b == (hash_frag & FULL_MASK),
        is_full_byte(b),
{
    proof {
        assert((hash_frag & 0x7f) < 128) by (bit_vector);
    }
    hash_frag & FULL_MASK
}

/// Scan one window for the first reusable byte, with the kernel picked for
/// this build (the scalar kernel).
pub fn simd_find_empty(ctrls: &[u8]) -> (r: Option<usize>)
    requires
        ctrls@.len() == CHUNK_SIZE,
    ensures
        match r {
            Some(i) => i < CHUNK_SIZE && is_free_byte(ctrls@[i as int])
                && forall|j: int| 0 <= j < i ==> !is_free_byte(ctrls@[j]),
            None => forall|j: int| 0 <= j < CHUNK_SIZE ==> !is_free_byte(ctrls@[j]),
        },
{
    Scalar::find_empty(ctrls)
}

/// Scan one window for the first byte equal to `fragment`, with the kernel
/// picked for this build (the scalar kernel).
pub fn simd_find_match(ctrls: &[u8], fragment: u8) -> (r: Option<usize>)
    requires
        ctrls@.len() == CHUNK_SIZE,
    ensures
        match r {
            Some(i) => i < CHUNK_SIZE && ctrls@[i as int] == fragment
                && forall|j: int| 0 <= j < i ==> ctrls@[j] != fragment,
            None => forall|j: int| 0 <= j < CHUNK_SIZE ==> ctrls@[j] != fragment,
        },
{
    Scalar::find_match(ctrls, fragment)
}

/// All positions in the window whose byte equals `fragment`, in ascending
/// order.
pub fn find_all_matches(ctrls: &[u8], fragment: u8) -> (r: Vec<u8>)
    requires
        ctrls@.len() == CHUNK_SIZE,
    ensures
        r@.len() <= CHUNK_SIZE,
        forall|t: int| 0 <= t < r@.len()
            ==> (r@[t] as int) < CHUNK_SIZE && ctrls@[r@[t] as int] == fragment,
        forall|j: int| 0 <= j < CHUNK_SIZE && ctrls@[j] == fragment
            ==> r@.contains(j as u8),
        forall|t1: int, t2: int| 0 <= t1 < t2 < r@.len() ==> r@[t1] < r@[t2],
{
    let mut r: Vec<u8> = Vec::new();
    let mut i: usize = 0;
    while i < CHUNK_SIZE
        invariant
            i <= CHUNK_SIZE,
            ctrls@.len() == CHUNK_SIZE,
            r@.len() <= i,
            forall|t: int| 0 <= t < r@.len()
                ==> (r@[t] as int) < i && ctrls@[r@[t] as int] == fragment,
            forall|j: int| 0 <= j < i && ctrls@[j] == fragment ==> r@.contains(j as u8),
            forall|t1: int, t2: int| 0 <= t1 < t2 < r@.len() ==> r@[t1] < r@[t2],
        decreases CHUNK_SIZE - i,
    {
        if ctrls[i] == fragment {
            let ghost old_r = r@;
            r.push(i as u8);
            proof {
                assert(r@[r@.len() - 1] == i as u8);
                assert forall|j: int| 0 <= j < i + 1 && ctrls@[j] == fragment
                    implies r@.contains(j as u8) by {
                    if j < i {
                        let t = choose|t: int| 0 <= t < old_r.len() && old_r[t] == j as u8;
                        assert(r@[t] == j as u8);
                    } else {
                        assert(r@[r@.len() - 1] == j as u8);
                    }
                }
            }
        }
        i = i + 1;
    }
    r
}

} // verus!
