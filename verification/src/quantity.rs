//! Hex quantities: numbers as `0x` followed by their lower-case hex digits,
//! without leading zeros (`0x0` for zero).

use vstd::prelude::*;
use vstd::string::*;
use crate::debank::U256;
use crate::hashing::be_value;
use crate::hexfmt::{hex_char, hex_digit, push_char};

verus! {

/// Hex digits of a natural number, without leading zeros (`"0"` for zero).
pub open spec fn hex_nat(n: nat) -> Seq<char>
    decreases n,
{
    if n < 16 {
        seq![hex_char(n as int)]
    } else {
        hex_nat(n / 16).push(hex_char((n % 16) as int))
    }
}

/// `0x` followed by the hex digits of `n`.
pub open spec fn quantity_hex(n: nat) -> Seq<char> {
    seq!['0', 'x'] + hex_nat(n)
}

/// The nibbles of bytes, high nibble first.
pub open spec fn nibbles(bs: Seq<u8>) -> Seq<int>
    decreases bs.len(),
{
    if bs.len() == 0 {
        seq![]
    } else {
        nibbles(bs.drop_last()) + seq![(bs.last() / 16) as int, (bs.last() % 16) as int]
    }
}

/// The value of base-16 digits, most significant first.
pub open spec fn nibble_value(ns: Seq<int>) -> int
    decreases ns.len(),
{
    if ns.len() == 0 {
        0
    } else {
        nibble_value(ns.drop_last()) * 16 + ns.last()
    }
}

/// Whether every element is a digit below 16.
pub open spec fn all_nibbles(ns: Seq<int>) -> bool {
    forall|i: int| 0 <= i < ns.len() ==> 0 <= #[trigger] ns[i] < 16
}

proof fn lemma_nibbles(bs: Seq<u8>)
    ensures
        nibbles(bs).len() == 2 * bs.len(),
        forall|i: int|
            0 <= i < bs.len() ==> nibbles(bs)[2 * i] == (bs[i] / 16) as int && nibbles(bs)[2 * i
                + 1] == (bs[i] % 16) as int,
        all_nibbles(nibbles(bs)),
        nibble_value(nibbles(bs)) == be_value(bs),
    decreases bs.len(),
{
    if bs.len() > 0 {
        let dl = bs.drop_last();
        lemma_nibbles(dl);
        let ns = nibbles(bs);
        let nd = nibbles(dl);
        assert(ns.drop_last().drop_last() =~= nd);
        assert forall|i: int|
            0 <= i < bs.len() implies nibbles(bs)[2 * i] == (bs[i] / 16) as int && nibbles(bs)[2 * i
                + 1] == (bs[i] % 16) as int by {
            if i < dl.len() {
                assert(bs[i] == dl[i]);
                assert(ns[2 * i] == nd[2 * i]);
                assert(ns[2 * i + 1] == nd[2 * i + 1]);
            }
        }
        assert forall|i: int| 0 <= i < ns.len() implies 0 <= #[trigger] ns[i] < 16 by {
            if i < nd.len() {
                assert(ns[i] == nd[i]);
            }
        }
        assert(nibble_value(ns.drop_last()) == nibble_value(nd) * 16 + bs.last() / 16);
        assert(bs.last() == (bs.last() / 16) * 16 + bs.last() % 16);
    }
}

proof fn lemma_nibble_value_leading_zero(t: Seq<int>)
    ensures
        nibble_value(seq![0int] + t) == nibble_value(t),
    decreases t.len(),
{
    if t.len() > 0 {
        lemma_nibble_value_leading_zero(t.drop_last());
        assert((seq![0int] + t).drop_last() =~= seq![0int] + t.drop_last());
        assert((seq![0int] + t).last() == t.last());
        let x = seq![0int] + t;
        assert(x.len() > 0);
        assert(nibble_value(x) == nibble_value(x.drop_last()) * 16 + x.last());
        assert(nibble_value(t) == nibble_value(t.drop_last()) * 16 + t.last());
    } else {
        let x = seq![0int] + t;
        assert(x.drop_last() =~= Seq::<int>::empty());
        assert(x.len() == 1);
        assert(x.last() == 0);
        assert(nibble_value(x) == nibble_value(x.drop_last()) * 16 + x.last());
        assert(nibble_value(x.drop_last()) == 0);
    }
}

proof fn lemma_nibble_value_skip_zeros(ns: Seq<int>, j: int)
    requires
        0 <= j <= ns.len(),
        forall|k: int| 0 <= k < j ==> ns[k] == 0,
    ensures
        nibble_value(ns) == nibble_value(ns.skip(j)),
    decreases j,
{
    if j > 0 {
        lemma_nibble_value_skip_zeros(ns.drop_first(), j - 1);
        assert(ns.drop_first().skip(j - 1) =~= ns.skip(j));
        assert(ns =~= seq![0int] + ns.drop_first());
        lemma_nibble_value_leading_zero(ns.drop_first());
    } else {
        assert(ns.skip(0) =~= ns);
    }
}

proof fn lemma_nibble_value_pos(t: Seq<int>)
    requires
        t.len() > 0,
        all_nibbles(t),
        t[0] != 0,
    ensures
        nibble_value(t) >= 1,
    decreases t.len(),
{
    if t.len() > 1 {
        let dl = t.drop_last();
        assert(dl[0] == t[0]);
        assert(all_nibbles(dl)) by {
            assert forall|i: int| 0 <= i < dl.len() implies 0 <= #[trigger] dl[i] < 16 by {
                assert(dl[i] == t[i]);
            }
        }
        lemma_nibble_value_pos(dl);
        assert(0 <= t[t.len() - 1]);
    } else {
        assert(t.drop_last().len() == 0);
        assert(0 <= t[0] < 16);
        assert(t.last() == t[0]);
        assert(nibble_value(t) == nibble_value(t.drop_last()) * 16 + t.last());
        assert(nibble_value(t.drop_last()) == 0);
    }
}

proof fn lemma_hex_nat_of_digits(t: Seq<int>)
    requires
        t.len() > 0,
        all_nibbles(t),
        t[0] != 0,
    ensures
        nibble_value(t) >= 0,
        hex_nat(nibble_value(t) as nat) == t.map_values(|d: int| hex_char(d)),
    decreases t.len(),
{
    let dl = t.drop_last();
    assert(0 <= t[t.len() - 1] < 16);
    if t.len() == 1 {
        assert(dl.len() == 0);
        assert(t.map_values(|d: int| hex_char(d)) =~= seq![hex_char(t[0])]);
    } else {
        assert(dl[0] == t[0]);
        assert(all_nibbles(dl)) by {
            assert forall|i: int| 0 <= i < dl.len() implies 0 <= #[trigger] dl[i] < 16 by {
                assert(dl[i] == t[i]);
            }
        }
        lemma_hex_nat_of_digits(dl);
        lemma_nibble_value_pos(dl);
        let n = nibble_value(t);
        let q = nibble_value(dl);
        let r = t.last();
        assert(n == q * 16 + r);
        vstd::arithmetic::div_mod::lemma_fundamental_div_mod_converse(n, 16, q, r);
        assert(t.map_values(|d: int| hex_char(d)) =~= dl.map_values(|d: int| hex_char(d)).push(
            hex_char(r),
        ));
    }
}

proof fn lemma_nibble_value_zeros(ns: Seq<int>)
    requires
        forall|k: int| 0 <= k < ns.len() ==> ns[k] == 0,
    ensures
        nibble_value(ns) == 0,
    decreases ns.len(),
{
    if ns.len() > 0 {
        lemma_nibble_value_zeros(ns.drop_last());
    }
}

/// Appends the hex digits of `n`.
pub fn push_hex(s: &mut String, n: u64)
    ensures
        final(s)@ == old(s)@ + hex_nat(n as nat),
    decreases n,
{
    if n >= 16 {
        push_hex(s, n / 16);
    }
    push_char(s, hex_digit((n % 16) as u8));
}

/// A 64-bit number as a hex quantity, as `format!("0x{:x}", n)` writes it.
pub fn format_quantity(n: u64) -> (res: String)
    ensures
        res@ == quantity_hex(n as nat),
{
    let mut s = String::new();
    push_char(&mut s, '0');
    push_char(&mut s, 'x');
    push_hex(&mut s, n);
    s
}

/// A 256-bit number as a hex quantity, as `format!("{:#x}", v)` writes it
/// (`0x0` for zero).
pub fn u256_to_hex(v: &U256) -> (res: String)
    ensures
        res@ == quantity_hex(be_value(v@)),
{
    let ghost ns = nibbles(v@);
    proof {
        lemma_nibbles(v@);
    }
    let mut s = String::new();
    push_char(&mut s, '0');
    push_char(&mut s, 'x');
    let mut started = false;
    let ghost mut first: int = 0;
    let mut i: usize = 0;
    while i < 32
        invariant
            i <= 32,
            v@.len() == 32,
            ns == nibbles(v@),
            ns.len() == 64,
            all_nibbles(ns),
            forall|k: int|
                0 <= k < 32 ==> ns[2 * k] == (v@[k] / 16) as int && ns[2 * k + 1] == (v@[k] % 16) as int,
            !started ==> s@ == seq!['0', 'x'] && forall|k: int| 0 <= k < 2 * i ==> ns[k] == 0,
            started ==> 0 <= first < 2 * i && ns[first] != 0 && (forall|k: int| 0 <= k < first ==> ns[k] == 0)
                && s@ == seq!['0', 'x'] + ns.subrange(first, 2 * i).map_values(|d: int| hex_char(d)),
        decreases 32 - i,
    {
        let b = v[i];
        let hi = b / 16;
        let lo = b % 16;
        proof {
            assert(ns[2 * i] == hi as int);
            assert(ns[2 * i + 1] == lo as int);
        }
        if started || hi != 0 {
            let ghost prev = s@;
            push_char(&mut s, hex_digit(hi));
            proof {
                if !started {
                    first = 2 * i;
                }
                assert(ns.subrange(first, 2 * i + 1).map_values(|d: int| hex_char(d)) =~= ns.subrange(
                    first,
                    2 * i,
                ).map_values(|d: int| hex_char(d)).push(hex_char(hi as int)));
                assert(s@ =~= seq!['0', 'x'] + ns.subrange(first, 2 * i + 1).map_values(
                    |d: int| hex_char(d),
                ));
            }
            started = true;
        }
        if started || lo != 0 {
            proof {
                if !started {
                    first = 2 * i + 1;
                }
                assert(ns.subrange(first, 2 * i + 2).map_values(|d: int| hex_char(d)) =~= ns.subrange(
                    first,
                    2 * i + 1,
                ).map_values(|d: int| hex_char(d)).push(hex_char(lo as int)));
                if started {
                    assert(s@ == seq!['0', 'x'] + ns.subrange(first, 2 * i + 1).map_values(
                        |d: int| hex_char(d),
                    ));
                } else {
                    assert(ns.subrange(first, 2 * i + 1).len() == 0);
                    assert(s@ =~= seq!['0', 'x'] + ns.subrange(first, 2 * i + 1).map_values(
                        |d: int| hex_char(d),
                    ));
                }
            }
            push_char(&mut s, hex_digit(lo));
            proof {
                assert(s@ =~= seq!['0', 'x'] + ns.subrange(first, 2 * i + 2).map_values(
                    |d: int| hex_char(d),
                ));
            }
            started = true;
        } else {
            proof {
                if started {
                    assert(false);
                }
            }
        }
        i += 1;
    }
    if !started {
        push_char(&mut s, '0');
        proof {
            lemma_nibble_value_zeros(ns);
            assert(s@ =~= quantity_hex(0));
        }
    } else {
        proof {
            assert(ns.subrange(first, 64) =~= ns.skip(first));
            lemma_nibble_value_skip_zeros(ns, first);
            let t = ns.skip(first);
            assert(all_nibbles(t)) by {
                assert forall|k: int| 0 <= k < t.len() implies 0 <= #[trigger] t[k] < 16 by {
                    assert(t[k] == ns[first + k]);
                }
            }
            lemma_hex_nat_of_digits(t);
        }
    }
    s
}

} // verus!
