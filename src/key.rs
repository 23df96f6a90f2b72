//! Keys of the hash table: a canonical byte form and an equality test.
use vstd::prelude::*;

verus! {

/// The `n` low-order bytes of `x`, least significant first.
pub open spec fn le_bytes(x: nat, n: nat) -> Seq<u8>
    decreases n,
{
    if n == 0 {
        Seq::empty()
    } else {
        seq![(x % 256) as u8].add(le_bytes(x / 256, (n - 1) as nat))
    }
}

/// A type whose values can key a `HashMap`.
///
/// Equal keys have equal bytes, because `key_bytes` is a function of the key:
/// that is what lets a table find a key again in the bucket it hashed to.
pub trait HashKey: Sized {
    /// The bytes that the key feeds to the hasher.
    spec fn key_bytes(&self) -> Seq<u8>;

    fn hash_bytes(&self) -> (r: Vec<u8>)
        ensures
            r@ == self.key_bytes(),
    ;

    fn key_eq(&self, other: &Self) -> (r: bool)
        ensures
            r == (*self == *other),
    ;
}

/// The `n` low-order bytes of `x`, least significant first.
pub fn le_bytes_of(x: u64, n: usize) -> (r: Vec<u8>)
    requires
        n <= 8,
    ensures
        r@ == le_bytes(x as nat, n as nat),
{
    let mut r: Vec<u8> = Vec::new();
    let mut v: u64 = x;
    let mut i: usize = 0;
    while i < n
        invariant
            i <= n,
            r@.add(le_bytes(v as nat, (n - i) as nat)) == le_bytes(x as nat, n as nat),
        decreases n - i,
    {
        let b: u8 = (v % 256) as u8;
        proof {
            let rest = le_bytes((v / 256) as nat, (n - i - 1) as nat);
            assert(le_bytes(v as nat, (n - i) as nat) == seq![b].add(rest));
            assert(r@.push(b).add(rest) =~= r@.add(seq![b].add(rest)));
        }
        r.push(b);
        v = v / 256;
        i = i + 1;
    }
    assert(r@.add(le_bytes(v as nat, 0)) =~= r@);
    r
}

impl HashKey for u64 {
    open spec fn key_bytes(&self) -> Seq<u8> {
        le_bytes(*self as nat, 8)
    }

    fn hash_bytes(&self) -> (r: Vec<u8>) {
        le_bytes_of(*self, 8)
    }

    fn key_eq(&self, other: &Self) -> (r: bool) {
        *self == *other
    }
}

impl HashKey for u32 {
    open spec fn key_bytes(&self) -> Seq<u8> {
        le_bytes(*self as nat, 4)
    }

    fn hash_bytes(&self) -> (r: Vec<u8>) {
        le_bytes_of(*self as u64, 4)
    }

    fn key_eq(&self, other: &Self) -> (r: bool) {
        *self == *other
    }
}

impl HashKey for usize {
    open spec fn key_bytes(&self) -> Seq<u8> {
        le_bytes(*self as nat, 8)
    }

    fn hash_bytes(&self) -> (r: Vec<u8>) {
        le_bytes_of(*self as u64, 8)
    }

    fn key_eq(&self, other: &Self) -> (r: bool) {
        *self == *other
    }
}

impl HashKey for u8 {
    open spec fn key_bytes(&self) -> Seq<u8> {
        le_bytes(*self as u64 as nat, 1)
    }

    fn hash_bytes(&self) -> (r: Vec<u8>) {
        le_bytes_of(*self as u64, 1)
    }

    fn key_eq(&self, other: &Self) -> (r: bool) {
        *self == *other
    }
}

impl HashKey for u16 {
    open spec fn key_bytes(&self) -> Seq<u8> {
        le_bytes(*self as u64 as nat, 2)
    }

    fn hash_bytes(&self) -> (r: Vec<u8>) {
        le_bytes_of(*self as u64, 2)
    }

    fn key_eq(&self, other: &Self) -> (r: bool) {
        *self == *other
    }
}

impl HashKey for i32 {
    open spec fn key_bytes(&self) -> Seq<u8> {
        le_bytes(*self as u32 as u64 as nat, 4)
    }

    fn hash_bytes(&self) -> (r: Vec<u8>) {
        le_bytes_of(*self as u32 as u64, 4)
    }

    fn key_eq(&self, other: &Self) -> (r: bool) {
        *self == *other
    }
}

impl HashKey for i64 {
    open spec fn key_bytes(&self) -> Seq<u8> {
        le_bytes(*self as u64 as nat, 8)
    }

    fn hash_bytes(&self) -> (r: Vec<u8>) {
        le_bytes_of(*self as u64, 8)
    }

    fn key_eq(&self, other: &Self) -> (r: bool) {
        *self == *other
    }
}

impl HashKey for isize {
    open spec fn key_bytes(&self) -> Seq<u8> {
        le_bytes(*self as i64 as u64 as nat, 8)
    }

    fn hash_bytes(&self) -> (r: Vec<u8>) {
        le_bytes_of(*self as i64 as u64, 8)
    }

    fn key_eq(&self, other: &Self) -> (r: bool) {
        *self == *other
    }
}

} // verus!
