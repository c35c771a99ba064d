//! Byte-string helpers: copies, comparisons, big-endian numbers.

use vstd::prelude::*;
use crate::hashing::{append_bytes, be_value};

verus! {

/// A copy of a byte vector.
pub fn copy_bytes(v: &[u8]) -> (r: Vec<u8>)
    ensures
        r@ == v@,
{
    let mut r: Vec<u8> = Vec::new();
    append_bytes(&mut r, v);
    proof {
        assert(Seq::<u8>::empty() + v@ =~= v@);
    }
    r
}

/// Whether two 32-byte strings are equal.
pub fn bytes32_eq(a: &[u8; 32], b: &[u8; 32]) -> (r: bool)
    ensures
        r == (a@ == b@),
{
    let mut i: usize = 0;
    while i < 32
        invariant
            i <= 32,
            a@.len() == 32,
            b@.len() == 32,
            forall|j: int| 0 <= j < i ==> a@[j] == b@[j],
        decreases 32 - i,
    {
        if a[i] != b[i] {
            return false;
        }
        i += 1;
    }
    proof {
        assert(a@ =~= b@);
    }
    true
}

/// Whether two 20-byte strings are equal.
pub fn bytes20_eq(a: &[u8; 20], b: &[u8; 20]) -> (r: bool)
    ensures
        r == (a@ == b@),
{
    let mut i: usize = 0;
    while i < 20
        invariant
            i <= 20,
            a@.len() == 20,
            b@.len() == 20,
            forall|j: int| 0 <= j < i ==> a@[j] == b@[j],
        decreases 20 - i,
    {
        if a[i] != b[i] {
            return false;
        }
        i += 1;
    }
    proof {
        assert(a@ =~= b@);
    }
    true
}

/// The bytes without their leading zero bytes (empty when all are zero).
pub open spec fn trim_leading_zeros(bs: Seq<u8>) -> Seq<u8>
    decreases bs.len(),
{
    if bs.len() == 0 {
        bs
    } else if bs[0] == 0 {
        trim_leading_zeros(bs.drop_first())
    } else {
        bs
    }
}

proof fn lemma_trim_skip(bs: Seq<u8>, i: int)
    requires
        0 <= i <= bs.len(),
        forall|j: int| 0 <= j < i ==> bs[j] == 0,
    ensures
        trim_leading_zeros(bs) == trim_leading_zeros(bs.skip(i)),
    decreases i,
{
    if i > 0 {
        assert(bs.skip(1) =~= bs.drop_first());
        lemma_trim_skip(bs.drop_first(), i - 1);
        assert(bs.drop_first().skip(i - 1) =~= bs.skip(i));
    } else {
        assert(bs.skip(0) =~= bs);
    }
}

proof fn lemma_be_leading_zero(t: Seq<u8>)
    ensures
        be_value(seq![0u8] + t) == be_value(t),
    decreases t.len(),
{
    let x = seq![0u8] + t;
    if t.len() > 0 {
        lemma_be_leading_zero(t.drop_last());
        assert(x.drop_last() =~= seq![0u8] + t.drop_last());
        assert(x.last() == t.last());
        assert(be_value(x) == be_value(x.drop_last()) * 256 + x.last());
        assert(be_value(t) == be_value(t.drop_last()) * 256 + t.last());
    } else {
        assert(x.drop_last() =~= Seq::<u8>::empty());
        assert(x.last() == 0);
        assert(be_value(x) == be_value(x.drop_last()) * 256 + x.last());
        assert(be_value(x.drop_last()) == 0);
    }
}

/// A storage value written without its leading zero bytes stands for the same
/// number, and starts with a non-zero byte unless the number is zero (then it is
/// empty).
pub proof fn law_trimmed_value_canonical(bs: Seq<u8>)
    ensures
        be_value(trim_leading_zeros(bs)) == be_value(bs),
        trim_leading_zeros(bs).len() > 0 ==> trim_leading_zeros(bs)[0] != 0,
        trim_leading_zeros(bs).len() == 0 ==> be_value(bs) == 0,
    decreases bs.len(),
{
    if bs.len() > 0 && bs[0] == 0 {
        law_trimmed_value_canonical(bs.drop_first());
        assert(bs =~= seq![0u8] + bs.drop_first());
        lemma_be_leading_zero(bs.drop_first());
    }
}

/// The bytes without their leading zero bytes.
pub fn trim_zeros(bs: &[u8]) -> (r: Vec<u8>)
    ensures
        r@ == trim_leading_zeros(bs@),
{
    let mut i: usize = 0;
    while i < bs.len()
        invariant
            i <= bs@.len(),
            forall|j: int| 0 <= j < i ==> bs@[j] == 0,
        ensures
            i <= bs@.len(),
            forall|j: int| 0 <= j < i ==> bs@[j] == 0,
            i < bs@.len() ==> bs@[i as int] != 0,
        decreases bs.len() - i,
    {
        if bs[i] != 0 {
            break;
        }
        i += 1;
    }
    proof {
        lemma_trim_skip(bs@, i as int);
    }
    let mut r: Vec<u8> = Vec::new();
    let mut k: usize = i;
    while k < bs.len()
        invariant
            i <= k <= bs@.len(),
            r@ == bs@.subrange(i as int, k as int),
        decreases bs.len() - k,
    {
        r.push(bs[k]);
        proof {
            assert(bs@.subrange(i as int, k + 1) =~= bs@.subrange(i as int, k as int).push(
                bs@[k as int],
            ));
        }
        k += 1;
    }
    proof {
        assert(r@ =~= bs@.skip(i as int));
        if i < bs@.len() {
            assert(bs@.skip(i as int)[0] != 0);
        } else {
            assert(bs@.skip(i as int).len() == 0);
        }
    }
    r
}

/// Big-endian prefixes never read as more than the whole.
proof fn lemma_be_prefix_mono(bs: Seq<u8>, i: int)
    requires
        0 <= i <= bs.len(),
    ensures
        be_value(bs.take(i)) <= be_value(bs),
    decreases bs.len() - i,
{
    if i < bs.len() {
        lemma_be_prefix_mono(bs, i + 1);
        assert(bs.take(i + 1).drop_last() =~= bs.take(i));
    } else {
        assert(bs.take(i) =~= bs);
    }
}

/// A 256-bit big-endian number as a `u64`; it must fit, as `as_u64` panics
/// otherwise.
pub fn u256_as_u64(v: &[u8; 32]) -> (r: u64)
    requires
        be_value(v@) <= u64::MAX,
    ensures
        r == be_value(v@),
{
    let mut acc: u64 = 0;
    let mut i: usize = 0;
    proof {
        assert(v@.take(0) =~= Seq::<u8>::empty());
    }
    while i < 32
        invariant
            i <= 32,
            v@.len() == 32,
            be_value(v@) <= u64::MAX,
            acc == be_value(v@.take(i as int)),
        decreases 32 - i,
    {
        proof {
            lemma_be_prefix_mono(v@, i + 1);
            assert(v@.take(i + 1).drop_last() =~= v@.take(i as int));
        }
        acc = acc * 256 + v[i] as u64;
        i += 1;
    }
    proof {
        assert(v@.take(32) =~= v@);
    }
    acc
}

} // verus!
