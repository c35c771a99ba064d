//! Hex and decimal text for hashes, addresses and integers.

use vstd::prelude::*;
use vstd::string::*;

verus! {

/// The lower-case hex digit of a value below 16 (also the decimal digit below 10).
pub open spec fn hex_char(n: int) -> char {
    seq!['0', '1', '2', '3', '4', '5', '6', '7', '8', '9', 'a', 'b', 'c', 'd', 'e', 'f'][n]
}

/// Lower-case hex encoding of bytes: two digits per byte, high nibble first.
pub open spec fn hex_lower(bytes: Seq<u8>) -> Seq<char>
    decreases bytes.len(),
{
    if bytes.len() == 0 {
        seq![]
    } else {
        hex_lower(bytes.drop_last()) + seq![
            hex_char((bytes.last() / 16) as int),
            hex_char((bytes.last() % 16) as int),
        ]
    }
}

/// `"0x"` followed by the lower-case hex encoding of `bytes`.
pub open spec fn prefixed_hex(bytes: Seq<u8>) -> Seq<char> {
    seq!['0', 'x'] + hex_lower(bytes)
}

/// Decimal digits of a natural number, without leading zeros (`"0"` for zero).
pub open spec fn decimal(n: nat) -> Seq<char>
    decreases n,
{
    if n < 10 {
        seq![hex_char(n as int)]
    } else {
        decimal(n / 10).push(hex_char((n % 10) as int))
    }
}

/// Decimal text of an integer, with a leading `-` when it is negative.
pub open spec fn signed_decimal(x: int) -> Seq<char> {
    if x < 0 {
        seq!['-'] + decimal((-x) as nat)
    } else {
        decimal(x as nat)
    }
}

/// `hex::encode`: lower-case hex, two characters per byte, high nibble first
/// (the crate walks the bytes in order through its table `0123456789abcdef`).
#[verifier::external_body]
pub(crate) fn hex_encode(data: &[u8]) -> (res: String)
    ensures
        res@ == hex_lower(data@),
{
    hex::encode(data)
}

/// `String::push`: appends one character.
#[verifier::external_body]
pub(crate) fn push_char(s: &mut String, c: char)
    ensures
        final(s)@ == old(s)@.push(c),
{
    s.push(c)
}

/// The hex digit character of a value below 16.
pub fn hex_digit(n: u8) -> (c: char)
    requires
        n < 16,
    ensures
        c == hex_char(n as int),
{
    match n {
        0 => '0',
        1 => '1',
        2 => '2',
        3 => '3',
        4 => '4',
        5 => '5',
        6 => '6',
        7 => '7',
        8 => '8',
        9 => '9',
        10 => 'a',
        11 => 'b',
        12 => 'c',
        13 => 'd',
        14 => 'e',
        _ => 'f',
    }
}

/// Formats bytes (an address of 20 bytes, or any byte string) as lower-case hex
/// with a `0x` prefix.
pub fn format_address_bytes(bytes: &[u8]) -> (res: String)
    ensures
        res@ == prefixed_hex(bytes@),
{
    let mut s = String::new();
    push_char(&mut s, '0');
    push_char(&mut s, 'x');
    let h = hex_encode(bytes);
    s.append(h.as_str());
    s
}

/// Formats a 20-byte address as lower-case hex with a `0x` prefix.
pub fn format_address(addr: &[u8; 20]) -> (res: String)
    ensures
        res@ == prefixed_hex(addr@),
{
    format_address_bytes(addr.as_slice())
}

/// Formats a 32-byte hash as lower-case hex with a `0x` prefix.
pub fn format_hash(hash: &[u8; 32]) -> (res: String)
    ensures
        res@ == prefixed_hex(hash@),
{
    format_address_bytes(hash.as_slice())
}

/// Appends the decimal digits of `n`.
pub fn push_decimal(s: &mut String, n: u64)
    ensures
        final(s)@ == old(s)@ + decimal(n as nat),
    decreases n,
{
    if n >= 10 {
        push_decimal(s, n / 10);
    }
    push_char(s, hex_digit((n % 10) as u8));
}

/// Decimal text of a signed integer, as `to_string` gives it.
pub fn i64_to_decimal(x: i64) -> (res: String)
    ensures
        res@ == signed_decimal(x as int),
{
    let mut s = String::new();
    if x < 0 {
        push_char(&mut s, '-');
        let m: u64 = (0i128 - x as i128) as u64;
        push_decimal(&mut s, m);
    } else {
        push_decimal(&mut s, x as u64);
    }
    s
}


/// Whether every character is an ASCII decimal digit.
pub open spec fn is_decimal_digits(cs: Seq<char>) -> bool {
    forall|i: int| 0 <= i < cs.len() ==> '0' <= #[trigger] cs[i] <= '9'
}

/// The value of a string of decimal digits, read most significant digit first.
pub open spec fn decimal_value(cs: Seq<char>) -> nat
    decreases cs.len(),
{
    if cs.len() == 0 {
        0
    } else {
        (decimal_value(cs.drop_last()) * 10 + (cs.last() as int - '0' as int)) as nat
    }
}

/// Ten to the power `k`.
pub open spec fn pow10(k: nat) -> nat
    decreases k,
{
    if k == 0 {
        1
    } else {
        10 * pow10((k - 1) as nat)
    }
}

/// Every hex encoding is ASCII and twice as long as its bytes.
pub proof fn lemma_hex_lower_shape(bytes: Seq<u8>)
    ensures
        hex_lower(bytes).len() == 2 * bytes.len(),
        forall|i: int|
            0 <= i < hex_lower(bytes).len() ==> exists|k: int|
                0 <= k < 16 && #[trigger] hex_lower(bytes)[i] == hex_char(k),
    decreases bytes.len(),
{
    if bytes.len() > 0 {
        lemma_hex_lower_shape(bytes.drop_last());
        let prev = hex_lower(bytes.drop_last());
        let hi = (bytes.last() / 16) as int;
        let lo = (bytes.last() % 16) as int;
        assert forall|i: int|
            0 <= i < hex_lower(bytes).len() implies exists|k: int|
                0 <= k < 16 && #[trigger] hex_lower(bytes)[i] == hex_char(k) by {
            if i < prev.len() {
                assert(hex_lower(bytes)[i] == prev[i]);
            } else if i == prev.len() {
                assert(hex_lower(bytes)[i] == hex_char(hi));
            } else {
                assert(hex_lower(bytes)[i] == hex_char(lo));
            }
        }
    }
}

/// Different bytes have different hex encodings.
pub proof fn lemma_hex_lower_injective(a: Seq<u8>, b: Seq<u8>)
    requires
        hex_lower(a) == hex_lower(b),
    ensures
        a == b,
    decreases a.len(),
{
    lemma_hex_lower_shape(a);
    lemma_hex_lower_shape(b);
    assert(a.len() == b.len());
    if a.len() > 0 {
        let ha = hex_lower(a);
        let hb = hex_lower(b);
        assert(ha.drop_last().drop_last() =~= hex_lower(a.drop_last()));
        assert(hb.drop_last().drop_last() =~= hex_lower(b.drop_last()));
        lemma_hex_lower_injective(a.drop_last(), b.drop_last());
        assert(ha[ha.len() - 2] == hb[hb.len() - 2]);
        assert(ha[ha.len() - 1] == hb[hb.len() - 1]);
        assert(forall|x: int, y: int|
            0 <= x < 16 && 0 <= y < 16 && #[trigger] hex_char(x) == #[trigger] hex_char(y) ==> x
                == y);
        assert(a.last() == (a.last() / 16) * 16 + a.last() % 16);
        assert(b.last() == (b.last() / 16) * 16 + b.last() % 16);
        assert(a =~= a.drop_last().push(a.last()));
        assert(b =~= b.drop_last().push(b.last()));
    } else {
        assert(a =~= b);
    }
}

/// Formatting addresses and hashes loses nothing: different bytes give
/// different texts.
pub proof fn law_prefixed_hex_injective(a: Seq<u8>, b: Seq<u8>)
    requires
        prefixed_hex(a) == prefixed_hex(b),
    ensures
        a == b,
{
    assert(hex_lower(a) =~= prefixed_hex(a).skip(2));
    assert(hex_lower(b) =~= prefixed_hex(b).skip(2));
    lemma_hex_lower_injective(a, b);
}

/// Decimal text consists of digits and reads back as the number it was made from.
pub proof fn lemma_decimal_roundtrip(n: nat)
    ensures
        is_decimal_digits(decimal(n)),
        decimal_value(decimal(n)) == n,
        decimal(n).len() > 0,
    decreases n,
{
    assert(forall|k: int| 0 <= k < 10 ==> #[trigger] hex_char(k) as int == 48 + k);
    if n >= 10 {
        lemma_decimal_roundtrip(n / 10);
        let d = decimal(n);
        assert(d.drop_last() =~= decimal(n / 10));
        assert(hex_char((n % 10) as int) as int == 48 + n % 10);
        vstd::arithmetic::div_mod::lemma_fundamental_div_mod(n as int, 10);
        assert('0' as int == 48);
        assert(d.last() == hex_char((n % 10) as int));
        assert(decimal_value(d) == decimal_value(d.drop_last()) * 10 + (d.last() as int - '0' as int));
        assert(decimal_value(d) == decimal_value(decimal(n / 10)) * 10 + n % 10);
        assert forall|i: int| 0 <= i < d.len() implies '0' <= #[trigger] d[i] <= '9' by {
            if i < d.len() - 1 {
                assert(d[i] == decimal(n / 10)[i]);
            }
        }
    } else {
        assert(decimal(n).drop_last() =~= Seq::<char>::empty());
        assert('0' as int == 48);
        assert(decimal(n) == seq![hex_char(n as int)]);
        assert(decimal(n).last() == hex_char(n as int));
        assert(decimal_value(decimal(n).drop_last()) == 0);
        assert(hex_char(n as int) as int == 48 + n);
    }
}

/// Powers of ten are positive.
pub proof fn lemma_pow10_pos(k: nat)
    ensures
        pow10(k) > 0,
    decreases k,
{
    if k > 0 {
        lemma_pow10_pos((k - 1) as nat);
    }
}

/// Powers of ten grow with the exponent.
pub proof fn lemma_pow10_mono(a: nat, b: nat)
    requires
        a <= b,
    ensures
        pow10(a) <= pow10(b),
    decreases b,
{
    if a < b {
        lemma_pow10_mono(a, (b - 1) as nat);
        lemma_pow10_pos((b - 1) as nat);
    }
}

/// A string of `k` decimal digits reads as less than `10^k`.
pub proof fn lemma_decimal_value_bound(cs: Seq<char>)
    requires
        is_decimal_digits(cs),
    ensures
        decimal_value(cs) < pow10(cs.len()),
    decreases cs.len(),
{
    if cs.len() > 0 {
        let dl = cs.drop_last();
        assert(is_decimal_digits(dl)) by {
            assert forall|i: int| 0 <= i < dl.len() implies '0' <= #[trigger] dl[i] <= '9' by {
                assert(dl[i] == cs[i]);
            }
        }
        lemma_decimal_value_bound(dl);
        assert('0' <= cs[cs.len() - 1] <= '9');
    }
}

proof fn lemma_mod_shift(a: int, m: int, d: int)
    requires
        m > 0,
        0 <= a,
        0 <= d < 10,
    ensures
        (a * 10 + d) % (m * 10) == (a % m) * 10 + d,
{
    let q = a / m;
    let r = a % m;
    vstd::arithmetic::div_mod::lemma_fundamental_div_mod(a, m);
    vstd::arithmetic::div_mod::lemma_mod_pos_bound(a, m);
    assert(a == q * m + r) by (nonlinear_arith)
        requires
            a == m * q + r,
    ;
    assert(a * 10 + d == q * (m * 10) + (r * 10 + d)) by (nonlinear_arith)
        requires
            a == q * m + r,
    ;
    assert(0 <= r * 10 + d < m * 10) by (nonlinear_arith)
        requires
            0 <= r < m,
            0 <= d < 10,
    ;
    vstd::arithmetic::div_mod::lemma_fundamental_div_mod_converse(
        a * 10 + d,
        m * 10,
        q,
        r * 10 + d,
    );
}

/// The last `k` digits of a digit string read as its value modulo `10^k`.
pub proof fn lemma_decimal_suffix(cs: Seq<char>, k: nat)
    requires
        is_decimal_digits(cs),
        k <= cs.len(),
    ensures
        decimal_value(cs.subrange(cs.len() - k, cs.len() as int)) == decimal_value(cs) % pow10(k),
    decreases cs.len(),
{
    let suffix = cs.subrange(cs.len() - k, cs.len() as int);
    if k == 0 {
        assert(suffix.len() == 0);
    } else {
        let dl = cs.drop_last();
        assert(is_decimal_digits(dl)) by {
            assert forall|i: int| 0 <= i < dl.len() implies '0' <= #[trigger] dl[i] <= '9' by {
                assert(dl[i] == cs[i]);
            }
        }
        lemma_decimal_suffix(dl, (k - 1) as nat);
        assert(suffix.drop_last() =~= dl.subrange(dl.len() - (k - 1), dl.len() as int));
        assert(suffix.last() == cs.last());
        assert('0' <= cs[cs.len() - 1] <= '9');
        assert(pow10(k) == 10 * pow10((k - 1) as nat));
        lemma_pow10_pos((k - 1) as nat);
        lemma_mod_shift(
            decimal_value(dl) as int,
            pow10((k - 1) as nat) as int,
            cs.last() as int - '0' as int,
        );
        assert(pow10((k - 1) as nat) * 10 == pow10(k));
    }
}

} // verus!
