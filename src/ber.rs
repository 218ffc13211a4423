//! BER codecs of KLV framing: BER-OID integers (seven bits per byte, high
//! bit set on every byte but the last) for keys, and BER short or long form
//! lengths.
use vstd::prelude::*;
use vstd::arithmetic::div_mod::{
    lemma_fundamental_div_mod, lemma_mod_bound, lemma_div_denominator, lemma_div_pos_is_pos,
    lemma_div_is_ordered, lemma_div_multiples_vanish,
};
use vstd::arithmetic::mul::{lemma_mul_inequality};
use crate::dyadic::{p2, pow2_u128, lemma_pow2_values, lemma_p2_adds, lemma_p2_mono};
use crate::imap::{be_value, be_bytes, be_bytes_exec, lemma_be_value_bound, lemma_be_round_trip};

verus! {

/// The value of the first `n` bytes of `s` read as BER-OID groups.
pub open spec fn oid_value(s: Seq<u8>, n: int) -> int
    decreases n,
{
    if n <= 0 {
        0
    } else {
        oid_value(s, n - 1) * 128 + (s[n - 1] % 128) as int
    }
}

/// The first `n` bytes of `s` form one BER-OID integer: only its last byte
/// has the high bit clear.
pub open spec fn oid_ends_at(s: Seq<u8>, n: int) -> bool {
    &&& 1 <= n <= s.len()
    &&& s[n - 1] < 0x80
    &&& forall|i: int| 0 <= i < n - 1 ==> s[i] >= 0x80
}

/// The BER-OID integer at the front of `s` and its length in bytes, when
/// it ends within `s` and fits in 64 bits.
pub open spec fn ber_oid_spec(s: Seq<u8>) -> Option<(u64, usize)> {
    if exists|n: int| oid_ends_at(s, n) && oid_value(s, n) <= u64::MAX {
        let n = choose|n: int| oid_ends_at(s, n) && oid_value(s, n) <= u64::MAX;
        Some((oid_value(s, n) as u64, n as usize))
    } else {
        None
    }
}

/// A decoded BER-OID integer takes between one byte and the whole input.
pub proof fn lemma_ber_oid_len(s: Seq<u8>)
    requires
        s.len() <= usize::MAX,
    ensures
        ber_oid_spec(s) matches Some((v, n)) ==> 1 <= n <= s.len() && oid_ends_at(s, n as int),
{
}

proof fn lemma_oid_value_prefix(a: Seq<u8>, b: Seq<u8>, n: int)
    requires
        0 <= n <= a.len(),
    ensures
        oid_value(a + b, n) == oid_value(a, n),
    decreases n,
{
    if n > 0 {
        lemma_oid_value_prefix(a, b, n - 1);
        assert((a + b)[n - 1] == a[n - 1]);
    }
}

/// Bytes after a complete BER-OID integer do not change it.
pub proof fn lemma_ber_oid_prefix(a: Seq<u8>, b: Seq<u8>)
    requires
        a.len() <= usize::MAX,
        ber_oid_spec(a) is Some,
    ensures
        ber_oid_spec(a + b) == ber_oid_spec(a),
{
    let n = choose|n: int| oid_ends_at(a, n) && oid_value(a, n) <= u64::MAX;
    let ab = a + b;
    assert(oid_ends_at(ab, n)) by {
        assert forall|i: int| 0 <= i < n - 1 implies ab[i] >= 0x80 by {
            assert(ab[i] == a[i]);
        }
        assert(ab[n - 1] == a[n - 1]);
    }
    lemma_oid_value_prefix(a, b, n);
    assert forall|m: int| oid_ends_at(ab, m) implies m == n by {
        lemma_oid_ends_unique(ab, m, n);
    }
    let m = choose|m: int| oid_ends_at(ab, m) && oid_value(ab, m) <= u64::MAX;
    assert(oid_ends_at(ab, m));
}

/// Bytes after a complete BER length do not change it.
pub proof fn lemma_ber_length_prefix(a: Seq<u8>, b: Seq<u8>)
    requires
        ber_length_spec(a) is Some,
    ensures
        ber_length_spec(a + b) == ber_length_spec(a),
{
    let ab = a + b;
    assert(ab[0] == a[0]);
    if a[0] >= 0x80 {
        let count = (a[0] % 128) as int;
        assert(ab.subrange(1, 1 + count) =~= a.subrange(1, 1 + count));
    }
}

proof fn lemma_oid_ends_unique(s: Seq<u8>, n: int, m: int)
    requires
        oid_ends_at(s, n),
        oid_ends_at(s, m),
    ensures
        n == m,
{
    if n < m {
        assert(s[n - 1] >= 0x80);
    } else if m < n {
        assert(s[m - 1] >= 0x80);
    }
}

proof fn lemma_oid_value_grows(s: Seq<u8>, n: int, m: int)
    requires
        0 <= n <= m,
    ensures
        oid_value(s, n) <= oid_value(s, m),
        0 <= oid_value(s, n),
    decreases m - n,
{
    if n < m {
        lemma_oid_value_grows(s, n, m - 1);
        assert(oid_value(s, m - 1) >= 0) by {
            lemma_oid_value_nonneg(s, m - 1);
        }
    } else {
        lemma_oid_value_nonneg(s, n);
    }
}

proof fn lemma_oid_value_nonneg(s: Seq<u8>, n: int)
    ensures
        0 <= oid_value(s, n),
    decreases n,
{
    if n > 0 {
        lemma_oid_value_nonneg(s, n - 1);
    }
}

/// Decodes the BER-OID integer at the front of `s`; the result is the
/// value and the number of bytes it takes.
pub fn decode_ber_oid(s: &[u8]) -> (r: Option<(u64, usize)>)
    ensures
        r == ber_oid_spec(s@),
{
    let mut acc: u64 = 0;
    let mut i: usize = 0;
    while i < s.len()
        invariant
            i <= s@.len(),
            acc == oid_value(s@, i as int),
            forall|j: int| 0 <= j < i ==> s@[j] >= 0x80,
        decreases s@.len() - i,
    {
        let b = s[i];
        if acc > 0x01FF_FFFF_FFFF_FFFF {
            proof {
                assert forall|n: int| #[trigger] oid_ends_at(s@, n) implies oid_value(s@, n) > u64::MAX by {
                    assert(n > i) by {
                        if n <= i {
                            assert(s@[n - 1] >= 0x80);
                        }
                    }
                    lemma_oid_value_grows(s@, i + 1, n);
                }
            }
            return None;
        }
        let next: u64 = acc * 128 + (b % 128) as u64;
        if b < 0x80 {
            proof {
                assert(oid_ends_at(s@, i + 1));
                assert forall|n: int| oid_ends_at(s@, n) implies n == i + 1 by {
                    lemma_oid_ends_unique(s@, n, i + 1);
                }
            }
            return Some((next, i + 1));
        }
        acc = next;
        i = i + 1;
    }
    proof {
        assert forall|n: int| !oid_ends_at(s@, n) by {
            if oid_ends_at(s@, n) {
                assert(s@[n - 1] >= 0x80);
            }
        }
    }
    None
}

/// Number of seven-bit groups that `v` needs.
pub open spec fn oid_groups(v: int) -> int
    decreases v,
{
    if v < 128 {
        1
    } else {
        1 + oid_groups(v / 128)
    }
}

/// The BER-OID encoding of `v`: its seven-bit groups, most significant
/// first, with the high bit set on all but the last byte.
pub open spec fn ber_oid_bytes(v: int) -> Seq<u8> {
    let n = oid_groups(v);
    Seq::new(n as nat, |i: int| (((v / p2(7 * (n - 1 - i))) % 128) + if i < n - 1 { 128int } else { 0int }) as u8)
}

/// A value below `2^(7k)` needs at most `k` groups, and it is below
/// `2^(7 * groups)`.
proof fn lemma_oid_groups(v: int, k: int)
    requires
        0 <= v,
        1 <= k,
    ensures
        oid_groups(v) >= 1,
        v < p2(7 * oid_groups(v)),
        v < p2(7 * k) ==> oid_groups(v) <= k,
    decreases v,
{
    lemma_pow2_values();
    vstd::arithmetic::power2::lemma2_to64();
    if v >= 128 {
        lemma_oid_groups(v / 128, if k > 1 { k - 1 } else { 1 });
        lemma_p2_adds(7 * oid_groups(v / 128), 7);
        lemma_fundamental_div_mod(v, 128);
        lemma_mod_bound(v, 128);
        assert(v < p2(7 * oid_groups(v / 128) + 7)) by (nonlinear_arith)
            requires
                v == 128 * (v / 128) + v % 128,
                v % 128 < 128,
                v / 128 < p2(7 * oid_groups(v / 128)),
                p2(7 * oid_groups(v / 128) + 7) == p2(7 * oid_groups(v / 128)) * p2(7),
                p2(7) == 128,
        ;
        if k > 1 {
            lemma_p2_adds(7 * (k - 1), 7);
        } else {
            assert(p2(7) == 128);
        }
    }
}

/// The value of the first `j` bytes of an encoding is `v` without its
/// last `n - j` groups.
proof fn lemma_oid_prefix(v: int, j: int)
    requires
        0 <= v,
        0 <= j <= oid_groups(v),
    ensures
        oid_value(ber_oid_bytes(v), j) == v / p2(7 * (oid_groups(v) - j)),
    decreases j,
{
    let n = oid_groups(v);
    let r = ber_oid_bytes(v);
    lemma_oid_groups(v, 1);
    lemma_p2_mono(0, 7 * (n - j));
    if j == 0 {
        lemma_div_is_ordered(0, v, p2(7 * n));
        lemma_fundamental_div_mod(v, p2(7 * n));
        lemma_mod_bound(v, p2(7 * n));
        assert(v / p2(7 * n) == 0) by (nonlinear_arith)
            requires
                v == p2(7 * n) * (v / p2(7 * n)) + v % p2(7 * n),
                0 <= v % p2(7 * n),
                v < p2(7 * n),
                v / p2(7 * n) >= 0,
        ;
    } else {
        lemma_oid_prefix(v, j - 1);
        let x = v / p2(7 * (n - j));
        lemma_div_pos_is_pos(v, p2(7 * (n - j)));
        lemma_p2_adds(7 * (n - j), 7);
        vstd::arithmetic::power2::lemma2_to64();
        lemma_div_denominator(v, p2(7 * (n - j)), 128);
        assert(7 * (n - (j - 1)) == 7 * (n - j) + 7);
        assert(p2(7) == 128);
        lemma_fundamental_div_mod(x, 128);
        lemma_mod_bound(x, 128);
        assert(r[j - 1] % 128 == x % 128);
    }
}

/// Encodes `v` as a BER-OID integer.
pub fn encode_ber_oid(v: u64) -> (r: Vec<u8>)
    ensures
        r@ == ber_oid_bytes(v as int),
        ber_oid_spec(r@) == Some((v, r@.len() as usize)),
{
    proof {
        lemma_pow2_values();
        lemma_oid_groups(v as int, 10);
        lemma_p2_mono(64, 70);
    }
    let mut n: usize = 1;
    let mut rest: u64 = v;
    while rest >= 128
        invariant
            1 <= n,
            n - 1 + oid_groups(rest as int) == oid_groups(v as int),
            oid_groups(v as int) <= 10,
        decreases rest,
    {
        proof {
            lemma_oid_groups(rest as int, 1);
        }
        rest = rest / 128;
        n = n + 1;
    }
    let ghost g = oid_groups(v as int);
    let mut out: Vec<u8> = Vec::new();
    let mut i: usize = 0;
    while i < n
        invariant
            i <= n,
            n == g,
            g == oid_groups(v as int),
            g >= 1,
            n <= 10,
            out@.len() == i,
            forall|j: int| 0 <= j < i ==> out@[j] == ber_oid_bytes(v as int)[j],
        decreases n - i,
    {
        let shift = pow2_u128((7 * (n - 1 - i)) as u32);
        proof {
            lemma_p2_mono(0, 7 * (n - 1 - i));
        }
        let group = ((v as u128 / shift) % 128) as u8;
        proof {
            assert(ber_oid_bytes(v as int)[i as int] == (((v as int / p2(7 * (g - 1 - i))) % 128) + if i < g - 1 { 128int } else { 0int }) as u8);
        }
        out.push(if i < n - 1 { group + 128 } else { group });
        assert(out@[i as int] == ber_oid_bytes(v as int)[i as int]);
        i = i + 1;
    }
    assert(out@ =~= ber_oid_bytes(v as int));
    proof {
        let r = out@;
        lemma_oid_prefix(v as int, n as int);
        lemma_pow2_values();
        assert(oid_ends_at(r, n as int));
        assert forall|m: int| oid_ends_at(r, m) implies m == n by {
            lemma_oid_ends_unique(r, m, n as int);
        }
    }
    out
}

/// The BER length at the front of `s` and the number of bytes it takes:
/// one byte below `0x80` is the length itself; otherwise its low seven bits
/// count the big-endian length bytes that follow.
pub open spec fn ber_length_spec(s: Seq<u8>) -> Option<(u64, usize)> {
    if s.len() == 0 {
        None
    } else if s[0] < 0x80 {
        Some((s[0] as u64, 1usize))
    } else {
        let count = (s[0] % 128) as int;
        if count == 0 || s.len() < 1 + count || be_value(s.subrange(1, 1 + count)) > u64::MAX {
            None
        } else {
            Some((be_value(s.subrange(1, 1 + count)) as u64, (1 + count) as usize))
        }
    }
}

proof fn lemma_be_value_grows(s: Seq<u8>, n: int, m: int)
    requires
        0 <= n <= m <= s.len(),
    ensures
        0 <= be_value(s.take(n)) <= be_value(s.take(m)),
    decreases m - n,
{
    lemma_be_value_bound(s.take(n));
    if n < m {
        lemma_be_value_grows(s, n, m - 1);
        assert(s.take(m).drop_last() =~= s.take(m - 1));
    }
}

/// Decodes the BER length at the front of `s`.
pub fn decode_ber_length(s: &[u8]) -> (r: Option<(u64, usize)>)
    ensures
        r == ber_length_spec(s@),
{
    if s.len() == 0 {
        return None;
    }
    let b0 = s[0];
    if b0 < 0x80 {
        return Some((b0 as u64, 1));
    }
    let count: usize = (b0 % 128) as usize;
    if count == 0 || s.len() < 1 + count {
        return None;
    }
    let ghost body = s@.subrange(1, 1 + count as int);
    let mut acc: u64 = 0;
    let mut i: usize = 0;
    while i < count
        invariant
            i <= count,
            count <= 127,
            1 + count <= s@.len(),
            body == s@.subrange(1, 1 + count as int),
            acc == be_value(body.take(i as int)),
            s@[0] >= 0x80,
            count == (s@[0] % 128) as int,
        decreases count - i,
    {
        if acc > 0x00FF_FFFF_FFFF_FFFF {
            proof {
                let x = body.take(i + 1);
                assert(x.drop_last() =~= body.take(i as int));
                assert(be_value(x) == acc * 256 + x.last());
                assert(be_value(x) > u64::MAX);
                lemma_be_value_grows(body, i + 1, count as int);
                assert(body.take(count as int) =~= body);
                assert(be_value(s@.subrange(1, 1 + count as int)) > u64::MAX);
            }
            return None;
        }
        proof {
            assert(body.take(i + 1).drop_last() =~= body.take(i as int));
            assert(body[i as int] == s@[1 + i]);
        }
        acc = acc * 256 + s[1 + i] as u64;
        i = i + 1;
    }
    assert(body.take(count as int) =~= body);
    Some((acc, 1 + count))
}

/// Encodes a length in BER short form below `0x80`, else in long form with
/// as few length bytes as the value needs.
pub fn encode_ber_length(len: u64) -> (r: Vec<u8>)
    ensures
        ber_length_spec(r@) == Some((len, r@.len() as usize)),
        len < 0x80 ==> r@ == seq![len as u8],
{
    if len < 0x80 {
        let mut out: Vec<u8> = Vec::new();
        out.push(len as u8);
        return out;
    }
    proof {
        lemma_pow2_values();
        vstd::arithmetic::power2::lemma2_to64();
    }
    let mut count: usize = 1;
    let mut rest: u64 = len / 256;
    while rest > 0
        invariant
            1 <= count <= 8,
            rest == (len as int) / p2(8 * count),
            len < p2(64),
        decreases rest,
    {
        proof {
            lemma_p2_adds(8 * count, 8);
            vstd::arithmetic::power2::lemma2_to64();
            lemma_p2_mono(0, 8 * count);
            lemma_div_denominator(len as int, p2(8 * count), 256);
            if count >= 8 {
                lemma_p2_mono(64, 8 * count);
                lemma_div_is_ordered(len as int, p2(8 * count) - 1, p2(8 * count));
                lemma_div_multiples_vanish(1, p2(8 * count));
                assert((len as int) / p2(8 * count) == 0) by {
                    lemma_fundamental_div_mod(len as int, p2(8 * count));
                    lemma_mod_bound(len as int, p2(8 * count));
                    lemma_div_pos_is_pos(len as int, p2(8 * count));
                    assert((len as int) / p2(8 * count) == 0) by (nonlinear_arith)
                        requires
                            (len as int) == p2(8 * count) * ((len as int) / p2(8 * count)) + (len as int) % p2(8 * count),
                            0 <= (len as int) % p2(8 * count),
                            len < p2(8 * count),
                            (len as int) / p2(8 * count) >= 0,
                    ;
                }
            }
        }
        rest = rest / 256;
        count = count + 1;
    }
    proof {
        lemma_p2_mono(0, 8 * count);
        lemma_fundamental_div_mod(len as int, p2(8 * count));
        lemma_mod_bound(len as int, p2(8 * count));
        assert(len < p2(8 * count)) by (nonlinear_arith)
            requires
                (len as int) == p2(8 * count) * ((len as int) / p2(8 * count)) + (len as int) % p2(8 * count),
                (len as int) / p2(8 * count) == 0,
                (len as int) % p2(8 * count) < p2(8 * count),
        ;
        lemma_be_round_trip(len as int, count as nat);
    }
    let body = be_bytes_exec(len as u128, count);
    let mut out: Vec<u8> = Vec::new();
    out.push(0x80u8 + count as u8);
    let mut i: usize = 0;
    while i < count
        invariant
            i <= count <= 8,
            body@.len() == count,
            out@.len() == 1 + i,
            out@[0] == 0x80u8 + count as u8,
            forall|j: int| 0 <= j < i ==> out@[1 + j] == body@[j],
        decreases count - i,
    {
        out.push(body[i]);
        i = i + 1;
    }
    assert(out@.subrange(1, 1 + count as int) =~= body@);
    out
}

} // verus!
