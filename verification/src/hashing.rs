//! Identifiers (MD5) and validation hashes (SHA-1 summed as big integers).

use vstd::prelude::*;
use vstd::string::*;
use vstd::utf8::*;
use md5::Md5;
use num_bigint::BigUint;
use sha1::Digest;
use sha1::Sha1;
use crate::hexfmt::{
    i64_to_decimal, signed_decimal, decimal, decimal_value, hex_char, hex_encode, hex_lower, is_decimal_digits,
    lemma_decimal_roundtrip, lemma_decimal_suffix, lemma_decimal_value_bound, lemma_hex_lower_shape,
    lemma_pow10_mono, lemma_pow10_pos, pow10,
};

verus! {

// ------------------------------------------------------------------
// Outside digests and big integers
// ------------------------------------------------------------------

/// The MD5 digest of a byte string.
pub uninterp spec fn md5_spec(data: Seq<u8>) -> Seq<u8>;

/// The SHA-1 digest of a byte string.
pub uninterp spec fn sha1_spec(data: Seq<u8>) -> Seq<u8>;

/// The Keccak-256 digest of a byte string.
pub uninterp spec fn keccak_spec(data: Seq<u8>) -> Seq<u8>;

/// `Md5::digest` (md-5 crate, `Digest` trait): the MD5 digest of `data`, whose
/// output size is 16 bytes.
#[verifier::external_body]
fn md5_digest(data: &[u8]) -> (res: Vec<u8>)
    ensures
        res@ == md5_spec(data@),
        res@.len() == 16,
{
    Md5::digest(data).to_vec()
}

/// `Sha1::digest` (sha1 crate, `Digest` trait): the SHA-1 digest of `data`, whose
/// output size is 20 bytes.
#[verifier::external_body]
fn sha1_digest(data: &[u8]) -> (res: Vec<u8>)
    ensures
        res@ == sha1_spec(data@),
        res@.len() == 20,
{
    Sha1::digest(data).to_vec()
}

/// `keccak_hash::keccak`: the Keccak-256 digest of `data` as a 32-byte hash.
#[verifier::external_body]
pub(crate) fn keccak256(data: &[u8]) -> (res: [u8; 32])
    ensures
        res@ == keccak_spec(data@),
{
    keccak_hash::keccak(data).0
}

/// `keccak_hash::KECCAK_EMPTY`, which that crate documents as the Keccak hash of
/// the empty byte string.
#[verifier::external_body]
pub(crate) fn keccak_empty() -> (res: [u8; 32])
    ensures
        res@ == keccak_spec(Seq::<u8>::empty()),
{
    keccak_hash::KECCAK_EMPTY.0
}

#[verifier::external_type_specification]
#[verifier::external_body]
pub struct ExBigUint(BigUint);

/// The digits of a `BigUint`, 64 bits each, least significant first.
pub uninterp spec fn biguint_digits(n: BigUint) -> Seq<u64>;

/// The number that little-endian 64-bit digits stand for.
pub open spec fn limbs_value(d: Seq<u64>) -> nat
    decreases d.len(),
{
    if d.len() == 0 {
        0
    } else {
        (d[0] + 0x1_0000_0000_0000_0000 * limbs_value(d.drop_first())) as nat
    }
}

/// The number a `BigUint` holds.
pub open spec fn big_value(n: BigUint) -> nat {
    limbs_value(biguint_digits(n))
}

/// The digit value `BigUint::from_str_radix` gives an ASCII byte (`u8::MAX` for
/// a byte that is no digit or letter).
pub open spec fn radix_digit(b: u8) -> int {
    if 48 <= b <= 57 {
        b - 48
    } else if 97 <= b <= 122 {
        b - 97 + 10
    } else if 65 <= b <= 90 {
        b - 65 + 10
    } else {
        255
    }
}

/// Every byte is a digit below `radix`.
pub open spec fn all_radix_digits(bs: Seq<u8>, radix: int) -> bool {
    forall|i: int| 0 <= i < bs.len() ==> #[trigger] radix_digit(bs[i]) < radix
}

/// The value of digits in base `radix`, most significant first.
pub open spec fn radix_value(bs: Seq<u8>, radix: int) -> int
    decreases bs.len(),
{
    if bs.len() == 0 {
        0
    } else {
        radix_value(bs.drop_last(), radix) * radix + radix_digit(bs.last())
    }
}

/// `BigUint::from(u64)`.
#[verifier::external_body]
fn big_from_u64(x: u64) -> (res: BigUint)
    ensures
        limbs_value(biguint_digits(res)) == x,
{
    BigUint::from(x)
}

/// `BigUint::parse_bytes`: on a non-empty buffer of digits below `radix` (no sign,
/// no underscore) it gives the number those digits stand for. What it gives on
/// other buffers is not stated here. The radix must lie in `2..=36`, else the
/// crate panics.
#[verifier::external_body]
fn big_parse_bytes(buf: &[u8], radix: u32) -> (res: Option<BigUint>)
    requires
        2 <= radix <= 36,
    ensures
        buf@.len() > 0 && all_radix_digits(buf@, radix as int) ==> res.is_some()
            && limbs_value(biguint_digits(res.unwrap())) == radix_value(buf@, radix as int),
{
    BigUint::parse_bytes(buf, radix)
}

/// `BigUint += BigUint`.
#[verifier::external_body]
fn big_add_assign(a: &mut BigUint, b: BigUint)
    ensures
        limbs_value(biguint_digits(*final(a))) == limbs_value(biguint_digits(*old(a)))
            + limbs_value(biguint_digits(b)),
{
    *a += b;
}

/// `BigUint::to_string`: decimal digits without leading zeros (`"0"` for zero),
/// as its `Display` impl writes `to_str_radix(10)`.
#[verifier::external_body]
fn big_to_string(n: &BigUint) -> (res: String)
    ensures
        res@ == decimal(limbs_value(biguint_digits(*n))),
{
    n.to_string()
}

// ------------------------------------------------------------------
// Byte helpers
// ------------------------------------------------------------------

/// The value of bytes read as a big-endian unsigned integer.
pub open spec fn be_value(bs: Seq<u8>) -> nat
    decreases bs.len(),
{
    if bs.len() == 0 {
        0
    } else {
        (be_value(bs.drop_last()) * 256 + bs.last()) as nat
    }
}

/// UTF-8 bytes of each string, joined in order.
pub open spec fn joined_bytes(args: Seq<Seq<char>>) -> Seq<u8>
    decreases args.len(),
{
    if args.len() == 0 {
        seq![]
    } else {
        joined_bytes(args.drop_last()) + encode_utf8(args.last())
    }
}

/// The characters of each string, joined in order.
pub open spec fn joined_chars(args: Seq<Seq<char>>) -> Seq<char>
    decreases args.len(),
{
    if args.len() == 0 {
        seq![]
    } else {
        joined_chars(args.drop_last()) + args.last()
    }
}

/// The character sequences of string slices.
pub open spec fn strs_view(args: Seq<&str>) -> Seq<Seq<char>> {
    args.map_values(|a: &str| a@)
}

/// The character sequences of strings.
pub open spec fn strings_view(args: Seq<String>) -> Seq<Seq<char>> {
    args.map_values(|a: String| a@)
}

/// Appends the bytes of `src` to `dst`.
pub fn append_bytes(dst: &mut Vec<u8>, src: &[u8])
    ensures
        final(dst)@ == old(dst)@ + src@,
{
    let ghost start = dst@;
    let mut i: usize = 0;
    while i < src.len()
        invariant
            i <= src@.len(),
            dst@ == start + src@.take(i as int),
        decreases src.len() - i,
    {
        dst.push(src[i]);
        proof {
            assert(src@.take(i + 1) =~= src@.take(i as int).push(src@[i as int]));
        }
        i += 1;
    }
    proof {
        assert(src@.take(src@.len() as int) =~= src@);
    }
}

// ------------------------------------------------------------------
// Identifiers
// ------------------------------------------------------------------

/// The identifier of a list of strings: the lower-case hex MD5 digest of their
/// UTF-8 bytes, joined.
pub open spec fn debank_id_spec(args: Seq<Seq<char>>) -> Seq<char> {
    hex_lower(md5_spec(joined_bytes(args)))
}

/// Generates an identifier by MD5 hashing the concatenated arguments; the result
/// is 32 lower-case hex characters.
pub fn debank_id(args: &[&str]) -> (res: String)
    ensures
        res@ == debank_id_spec(strs_view(args@)),
        res@.len() == 32,
{
    let ghost views = strs_view(args@);
    let mut data: Vec<u8> = Vec::new();
    let mut i: usize = 0;
    while i < args.len()
        invariant
            i <= args@.len(),
            views == strs_view(args@),
            data@ == joined_bytes(views.take(i as int)),
        decreases args.len() - i,
    {
        let arg: &str = args[i];
        append_bytes(&mut data, arg.as_bytes());
        proof {
            assert(views.take(i + 1).drop_last() =~= views.take(i as int));
        }
        i += 1;
    }
    proof {
        assert(views.take(args@.len() as int) =~= views);
    }
    let digest = md5_digest(data.as_slice());
    proof {
        lemma_hex_lower_shape(digest@);
    }
    hex_encode(digest.as_slice())
}

/// The identifier of a text and a number.
pub open spec fn id_of_pair(a: Seq<char>, n: i64) -> Seq<char> {
    debank_id_spec(seq![a, signed_decimal(n as int)])
}

/// The identifier of two texts and a number.
pub open spec fn id_of_triple(a: Seq<char>, b: Seq<char>, n: i64) -> Seq<char> {
    debank_id_spec(seq![a, b, signed_decimal(n as int)])
}

/// The identifier of a text and a number in decimal.
pub fn debank_id_pair(a: &str, n: i64) -> (res: String)
    ensures
        res@ == id_of_pair(a@, n),
        res@.len() == 32,
{
    let n_text = i64_to_decimal(n);
    let args: [&str; 2] = [a, n_text.as_str()];
    let res = debank_id(args.as_slice());
    proof {
        assert(strs_view(args@) =~= seq![a@, signed_decimal(n as int)]);
    }
    res
}

/// The identifier of two texts and a number in decimal.
pub fn debank_id_triple(a: &str, b: &str, n: i64) -> (res: String)
    ensures
        res@ == id_of_triple(a@, b@, n),
        res@.len() == 32,
{
    let n_text = i64_to_decimal(n);
    let args: [&str; 3] = [a, b, n_text.as_str()];
    let res = debank_id(args.as_slice());
    proof {
        assert(strs_view(args@) =~= seq![a@, b@, signed_decimal(n as int)]);
    }
    res
}

/// UTF-8 encoding distributes over concatenation.
pub proof fn lemma_encode_utf8_concat(a: Seq<char>, b: Seq<char>)
    ensures
        encode_utf8(a + b) == encode_utf8(a) + encode_utf8(b),
    decreases a.len(),
{
    if a.len() > 0 {
        lemma_encode_utf8_concat(a.drop_first(), b);
        assert((a + b).drop_first() =~= a.drop_first() + b);
        assert((a + b)[0] == a[0]);
        assert(encode_utf8(a + b) =~= encode_scalar(a[0] as u32) + (encode_utf8(a.drop_first())
            + encode_utf8(b)));
    } else {
        assert(a + b =~= b);
    }
}

/// The bytes that an identifier hashes are those of the joined text.
pub proof fn lemma_joined_bytes(args: Seq<Seq<char>>)
    ensures
        joined_bytes(args) == encode_utf8(joined_chars(args)),
    decreases args.len(),
{
    if args.len() > 0 {
        lemma_joined_bytes(args.drop_last());
        lemma_encode_utf8_concat(joined_chars(args.drop_last()), args.last());
    }
}

/// An identifier depends only on the joined text of its arguments: however the
/// text is split into arguments, the identifier is the same.
pub proof fn law_debank_id_depends_on_joined_text(a: Seq<Seq<char>>, b: Seq<Seq<char>>)
    requires
        joined_chars(a) == joined_chars(b),
    ensures
        debank_id_spec(a) == debank_id_spec(b),
{
    lemma_joined_bytes(a);
    lemma_joined_bytes(b);
}


// ------------------------------------------------------------------
// Validation hash
// ------------------------------------------------------------------

/// The number that the SHA-1 digest of an identifier stands for.
pub open spec fn id_hash_value(id: Seq<char>) -> nat {
    be_value(sha1_spec(encode_utf8(id)))
}

/// The sum of the SHA-1 digests of the identifiers, each read as a big-endian number.
pub open spec fn validation_sum(ids: Seq<Seq<char>>) -> nat
    decreases ids.len(),
{
    if ids.len() == 0 {
        0
    } else {
        validation_sum(ids.drop_last()) + id_hash_value(ids.last())
    }
}

/// The validation hash of a list of identifiers: the last six decimal digits of
/// the sum of their SHA-1 digests.
pub open spec fn validation_hash_spec(ids: Seq<Seq<char>>) -> int {
    (validation_sum(ids) % 1_000_000) as int
}

/// The ASCII bytes of lower-case hex text are digits below 16 that read, in base
/// 16, as the big-endian number of the encoded bytes.
proof fn lemma_hex_radix_ascii(bs: Seq<u8>)
    ensures
        hex_lower(bs).map_values(|c: char| c as u8).len() == 2 * bs.len(),
        all_radix_digits(hex_lower(bs).map_values(|c: char| c as u8), 16),
        radix_value(hex_lower(bs).map_values(|c: char| c as u8), 16) == be_value(bs),
    decreases bs.len(),
{
    let m = hex_lower(bs).map_values(|c: char| c as u8);
    assert(forall|k: int| 0 <= k < 16 ==> #[trigger] radix_digit(hex_char(k) as u8) == k);
    if bs.len() > 0 {
        let dl = bs.drop_last();
        lemma_hex_radix_ascii(dl);
        let md = hex_lower(dl).map_values(|c: char| c as u8);
        let hi = (bs.last() / 16) as int;
        let lo = (bs.last() % 16) as int;
        assert(m =~= md.push(hex_char(hi) as u8).push(hex_char(lo) as u8));
        assert(m.drop_last() =~= md.push(hex_char(hi) as u8));
        assert(m.drop_last().drop_last() =~= md);
        assert forall|i: int| 0 <= i < m.len() implies #[trigger] radix_digit(m[i]) < 16 by {
            if i < md.len() {
                assert(m[i] == md[i]);
            }
        }
        assert(bs.last() == hi * 16 + lo);
        assert(radix_digit(hex_char(hi) as u8) == hi);
        assert(radix_digit(hex_char(lo) as u8) == lo);
        let x = radix_value(md, 16);
        assert(radix_value(m.drop_last(), 16) == x * 16 + hi);
        assert(radix_value(m, 16) == (x * 16 + hi) * 16 + lo);
        assert(be_value(bs) == be_value(dl) * 256 + bs.last());
    } else {
        assert(m.len() == 0);
    }
}

/// What `BigUint::parse_bytes` reads from the hex text of a digest.
proof fn lemma_hex_radix(bs: Seq<u8>)
    ensures
        encode_utf8(hex_lower(bs)).len() == 2 * bs.len(),
        all_radix_digits(encode_utf8(hex_lower(bs)), 16),
        radix_value(encode_utf8(hex_lower(bs)), 16) == be_value(bs),
{
    let cs = hex_lower(bs);
    lemma_hex_lower_shape(bs);
    assert(forall|k: int| 0 <= k < 16 ==> #[trigger] hex_char(k) as int <= 102);
    assert(is_ascii_chars(cs)) by {
        assert forall|i: int| 0 <= i < cs.len() implies '\0' <= #[trigger] cs[i] <= '\u{7f}' by {
            let k = choose|k: int| 0 <= k < 16 && cs[i] == hex_char(k);
            assert(hex_char(k) as int <= 102);
        }
    }
    is_ascii_chars_encode_utf8(cs);
    lemma_hex_radix_ascii(bs);
    assert(encode_utf8(cs) =~= cs.map_values(|c: char| c as u8));
}

/// Reads the last six decimal digits of `s` (all of them when there are fewer)
/// as a number.
fn last_six_digits(s: &String) -> (r: i64)
    requires
        is_decimal_digits(s@),
    ensures
        r == decimal_value(s@) % 1_000_000,
{
    let n = s.as_str().unicode_len();
    let start: usize = if n >= 6 { n - 6 } else { 0 };
    let mut acc: i64 = 0;
    let mut i: usize = start;
    proof {
        reveal_with_fuel(pow10, 7);
        assert(s@.subrange(start as int, start as int).len() == 0);
    }
    while i < n
        invariant
            start <= i <= n,
            n == s@.len(),
            is_decimal_digits(s@),
            n - start <= 6,
            acc == decimal_value(s@.subrange(start as int, i as int)),
            acc < pow10((i - start) as nat),
        decreases n - i,
    {
        let c = s.as_str().get_char(i);
        proof {
            assert('0' <= s@[i as int] <= '9');
            lemma_pow10_mono((i - start) as nat, 5);
            reveal_with_fuel(pow10, 7);
        }
        let d: i64 = (c as u32 - 48) as i64;
        proof {
            let sub = s@.subrange(start as int, i + 1);
            assert(sub.drop_last() =~= s@.subrange(start as int, i as int));
            assert(sub.last() == c);
        }
        acc = acc * 10 + d;
        i += 1;
    }
    proof {
        let k = (n - start) as nat;
        assert(s@.subrange(s@.len() - k, s@.len() as int) == s@.subrange(start as int, n as int));
        lemma_decimal_suffix(s@, k);
        lemma_decimal_value_bound(s@);
        reveal_with_fuel(pow10, 7);
        lemma_pow10_mono(k, 6);
        lemma_pow10_pos(k);
        if n < 6 {
            assert(s@.subrange(0, n as int) =~= s@);
            lemma_pow10_mono(n as nat, 6);
        }
    }
    acc
}

/// Calculates the validation hash of a list of identifiers: each is hashed with
/// SHA-1, the digests are summed as big integers, and the last six decimal
/// digits of the sum are read as a number.
pub fn calc_validation_hash(ids: &[String]) -> (h: i64)
    ensures
        h as int == validation_hash_spec(strings_view(ids@)),
        0 <= h < 1_000_000,
{
    let ghost views = strings_view(ids@);
    let mut sum = big_from_u64(0);
    let mut i: usize = 0;
    while i < ids.len()
        invariant
            i <= ids@.len(),
            views == strings_view(ids@),
            big_value(sum) == validation_sum(views.take(i as int)),
        decreases ids.len() - i,
    {
        let id: &String = &ids[i];
        let digest = sha1_digest(id.as_str().as_bytes());
        let hex = hex_encode(digest.as_slice());
        let hex_bytes = hex.as_str().as_bytes();
        proof {
            lemma_hex_radix(digest@);
            assert(views.take(i + 1).drop_last() =~= views.take(i as int));
            assert(views[i as int] == id@);
        }
        if let Some(v) = big_parse_bytes(hex_bytes, 16) {
            big_add_assign(&mut sum, v);
        }
        i += 1;
    }
    proof {
        assert(views.take(ids@.len() as int) =~= views);
    }
    let s = big_to_string(&sum);
    proof {
        lemma_decimal_roundtrip(big_value(sum));
    }
    last_six_digits(&s)
}

/// The validation hash of a list concatenated from two does not depend on the
/// order of the two parts.
pub proof fn law_validation_hash_concat_commutes(a: Seq<Seq<char>>, b: Seq<Seq<char>>)
    ensures
        validation_hash_spec(a + b) == validation_hash_spec(b + a),
{
    lemma_validation_sum_concat(a, b);
    lemma_validation_sum_concat(b, a);
}

/// The sum over a concatenation is the sum of the sums.
pub proof fn lemma_validation_sum_concat(a: Seq<Seq<char>>, b: Seq<Seq<char>>)
    ensures
        validation_sum(a + b) == validation_sum(a) + validation_sum(b),
    decreases b.len(),
{
    if b.len() == 0 {
        assert(a + b =~= a);
    } else {
        lemma_validation_sum_concat(a, b.drop_last());
        assert((a + b).drop_last() =~= a + b.drop_last());
        assert((a + b).last() == b.last());
    }
}

/// Taking one identifier out of a list takes its digest's number out of the sum.
proof fn lemma_validation_sum_remove(s: Seq<Seq<char>>, j: int)
    requires
        0 <= j < s.len(),
    ensures
        validation_sum(s) == validation_sum(s.remove(j)) + id_hash_value(s[j]),
{
    let s0 = s.subrange(0, j);
    let s2 = s.subrange(j + 1, s.len() as int);
    let one = seq![s[j]];
    assert(s =~= s0 + (one + s2));
    assert(s.remove(j) =~= s0 + s2);
    lemma_validation_sum_concat(s0, one + s2);
    lemma_validation_sum_concat(one, s2);
    lemma_validation_sum_concat(s0, s2);
    assert(one.drop_last() =~= Seq::<Seq<char>>::empty());
    assert(one.last() == s[j]);
    assert(validation_sum(one.drop_last()) == 0);
    assert(validation_sum(one) == validation_sum(one.drop_last()) + id_hash_value(one.last()));
}

/// Lists holding the same identifiers, each as often, have the same sum.
proof fn lemma_validation_sum_permutation(a: Seq<Seq<char>>, b: Seq<Seq<char>>)
    requires
        a.to_multiset() == b.to_multiset(),
    ensures
        validation_sum(a) == validation_sum(b),
    decreases a.len(),
{
    vstd::seq_lib::to_multiset_len(a);
    vstd::seq_lib::to_multiset_len(b);
    if a.len() > 0 {
        let n = a.len() - 1;
        let x = a[n];
        assert(a.contains(x));
        vstd::seq_lib::to_multiset_contains(a, x);
        vstd::seq_lib::to_multiset_contains(b, x);
        let j = choose|j: int| 0 <= j < b.len() && b[j] == x;
        vstd::seq_lib::to_multiset_remove(a, n);
        vstd::seq_lib::to_multiset_remove(b, j);
        assert(a.remove(n) =~= a.drop_last());
        lemma_validation_sum_permutation(a.remove(n), b.remove(j));
        lemma_validation_sum_remove(b, j);
    }
}

/// The validation hash does not depend on the order of the identifiers: two
/// lists holding the same identifiers, each as often, have the same hash.
pub proof fn law_validation_hash_permutation(a: Seq<Seq<char>>, b: Seq<Seq<char>>)
    requires
        a.to_multiset() == b.to_multiset(),
    ensures
        validation_hash_spec(a) == validation_hash_spec(b),
{
    lemma_validation_sum_permutation(a, b);
}

/// The validation hash of no identifiers is zero.
pub proof fn law_validation_hash_empty()
    ensures
        validation_hash_spec(Seq::<Seq<char>>::empty()) == 0,
{
}

} // verus!
