use vstd::prelude::*;

verus! {

/// Place value of the `i`-th 7-bit group: `128^i`.
pub open spec fn weight(i: nat) -> nat
    decreases i,
{
    if i == 0 {
        1
    } else {
        128 * weight((i - 1) as nat)
    }
}

/// Value of the first `k` bytes of `s` read as 7-bit groups, least significant first.
pub open spec fn varint_value(s: Seq<u8>, k: nat) -> nat
    decreases k,
{
    if k == 0 || k > s.len() {
        0
    } else {
        varint_value(s, (k - 1) as nat) + (s[k - 1] % 128) as nat * weight((k - 1) as nat)
    }
}

/// `s` starts with a valid varint of exactly `k` bytes: every byte before the
/// last has its continuation bit set, the last has it clear, there are at most
/// ten bytes, and a tenth byte is 0 or 1.
pub open spec fn is_varint_len(s: Seq<u8>, k: nat) -> bool {
    &&& 1 <= k <= 10
    &&& k <= s.len()
    &&& forall|j: int| 0 <= j < k - 1 ==> s[j] >= 128
    &&& s[k - 1] < 128
    &&& k == 10 ==> s[9] < 2
}

/// The varint at the start of `s`: its value and the number of bytes it takes,
/// or `None` when `s` does not start with a valid varint.
pub open spec fn varint_decode(s: Seq<u8>) -> Option<(u64, nat)> {
    if exists|k: nat| is_varint_len(s, k) {
        let k = choose|k: nat| is_varint_len(s, k);
        Some((varint_value(s, k) as u64, k))
    } else {
        None
    }
}

/// The shortest base-128 encoding of `v`: low group first, continuation bit on
/// every byte but the last.
pub open spec fn varint_encode(v: nat) -> Seq<u8>
    decreases v,
{
    if v < 128 {
        seq![v as u8]
    } else {
        seq![(v % 128 + 128) as u8] + varint_encode(v / 128)
    }
}

/// A varint's length is fixed by its bytes.
pub proof fn lemma_varint_len_unique(s: Seq<u8>, k1: nat, k2: nat)
    requires
        is_varint_len(s, k1),
        is_varint_len(s, k2),
    ensures
        k1 == k2,
{
    if k1 < k2 {
        assert(s[k1 - 1] >= 128);
    } else if k2 < k1 {
        assert(s[k2 - 1] >= 128);
    }
}

/// A decoded varint takes between one and ten bytes of its input.
pub proof fn lemma_varint_decode_len(s: Seq<u8>)
    ensures
        match varint_decode(s) {
            Some((v, k)) => is_varint_len(s, k) && 1 <= k <= 10 && k <= s.len(),
            None => forall|k: nat| !is_varint_len(s, k),
        },
{
}

proof fn lemma_weight_monotonic(i: nat, j: nat)
    requires
        i <= j,
    ensures
        weight(i) <= weight(j),
    decreases j,
{
    if i < j {
        lemma_weight_monotonic(i, (j - 1) as nat);
    }
}

proof fn lemma_weight_values()
    ensures
        weight(8) == 0x100_0000_0000_0000,
        weight(9) == 0x8000_0000_0000_0000,
{
    reveal_with_fuel(weight, 10);
}

/// The value of a varint is its first group plus 128 times the value of the
/// groups after it.
proof fn lemma_value_split(s: Seq<u8>, k: nat)
    requires
        1 <= k <= s.len(),
    ensures
        varint_value(s, k) == (s[0] % 128) as nat + 128 * varint_value(s.drop_first(), (k - 1) as nat),
    decreases k,
{
    let t = s.drop_first();
    if k == 1 {
        assert(varint_value(s, 0) == 0);
        assert(varint_value(t, 0) == 0);
        assert(weight(0) == 1);
        assert(varint_value(s, 1) == (s[0] % 128) as nat * weight(0));
        assert((s[0] % 128) as nat * 1 == (s[0] % 128) as nat);
    } else {
        lemma_value_split(s, (k - 1) as nat);
        assert(t[k - 2] == s[k - 1]);
        let c = (s[k - 1] % 128) as nat;
        let w = weight((k - 2) as nat);
        assert(weight((k - 1) as nat) == 128 * w);
        assert(c * (128 * w) == 128 * (c * w)) by (nonlinear_arith);
        assert(varint_value(t, (k - 1) as nat) == varint_value(t, (k - 2) as nat) + c * w);
        assert(varint_value(s, k) == varint_value(s, (k - 1) as nat) + c * weight((k - 1) as nat));
    }
}

/// An encoding of a value below `b * 128^(m-1)` takes at most `m` bytes, and
/// when it takes exactly `m` its last byte is below `b`.
proof fn lemma_encode_bound(v: nat, m: nat, b: nat)
    requires
        1 <= m,
        1 <= b <= 128,
        v < b * weight((m - 1) as nat),
    ensures
        varint_encode(v).len() <= m,
        varint_encode(v).len() == m ==> varint_encode(v)[m - 1] < b,
    decreases v,
{
    if m == 1 {
        let w0 = weight(0);
        assert(w0 == 1);
        assert(b * w0 == b) by (nonlinear_arith)
            requires
                w0 == 1,
        ;
    }
    if v >= 128 {
        let w = weight((m - 2) as nat);
        assert(b * (128 * w) == 128 * (b * w)) by (nonlinear_arith);
        assert(v / 128 < b * w);
        lemma_encode_bound(v / 128, (m - 1) as nat, b);
        let e = varint_encode(v);
        let t = varint_encode(v / 128);
        assert(e.len() == t.len() + 1);
        if e.len() == m {
            assert(e[m - 1] == t[m - 2]);
        }
    }
}

/// The shape of an encoding: continuation bits on every byte but the last.
proof fn lemma_encode_shape(v: nat)
    ensures
        varint_encode(v).len() >= 1,
        forall|j: int| 0 <= j < varint_encode(v).len() - 1 ==> varint_encode(v)[j] >= 128,
        varint_encode(v)[varint_encode(v).len() - 1] < 128,
    decreases v,
{
    if v >= 128 {
        lemma_encode_shape(v / 128);
        let e = varint_encode(v);
        let t = varint_encode(v / 128);
        assert forall|j: int| 0 <= j < e.len() - 1 implies e[j] >= 128 by {
            if j > 0 {
                assert(e[j] == t[j - 1]);
            }
        }
    }
}

/// The groups of an encoding add up to the encoded value.
proof fn lemma_encode_value(v: nat, rest: Seq<u8>)
    ensures
        varint_value(varint_encode(v) + rest, varint_encode(v).len()) == v,
    decreases v,
{
    let e = varint_encode(v);
    let s = e + rest;
    lemma_encode_shape(v);
    lemma_value_split(s, e.len());
    if v < 128 {
        assert(varint_value(s.drop_first(), 0) == 0);
    } else {
        assert(s.drop_first() =~= varint_encode(v / 128) + rest);
        lemma_encode_value(v / 128, rest);
    }
}

/// Encoding any 64-bit value and decoding the result, whatever bytes follow,
/// gives the value back and consumes exactly the bytes of its encoding: one
/// byte below `0x80`, never more than ten.
pub proof fn lemma_varint_round_trip(v: u64, rest: Seq<u8>)
    ensures
        varint_decode(varint_encode(v as nat) + rest) == Some((v, varint_encode(v as nat).len())),
        1 <= varint_encode(v as nat).len() <= 10,
        v < 0x80 ==> varint_encode(v as nat).len() == 1,
{
    let e = varint_encode(v as nat);
    let s = e + rest;
    let k = e.len();
    lemma_weight_values();
    lemma_encode_bound(v as nat, 10, 2);
    lemma_encode_shape(v as nat);
    lemma_encode_value(v as nat, rest);
    assert forall|j: int| 0 <= j < k - 1 implies s[j] >= 128 by {
        assert(s[j] == e[j]);
    }
    assert(s[k - 1] == e[k - 1]);
    assert(is_varint_len(s, k));
    assert forall|k2: nat| is_varint_len(s, k2) implies k2 == k by {
        lemma_varint_len_unique(s, k2, k);
    }
}

/// The varint at the start of a byte slice, as its value and length, or `None`
/// when the bytes `buf[start..end]` do not start with a valid varint.
pub(crate) fn varint_at(buf: &[u8], start: usize, end: usize) -> (r: Option<(u64, usize)>)
    requires
        start <= end <= buf@.len(),
    ensures
        match r {
            Some((v, n)) => varint_decode(buf@.subrange(start as int, end as int)) == Some(
                (v, n as nat),
            ),
            None => varint_decode(buf@.subrange(start as int, end as int)) is None,
        },
{
    let ghost s = buf@.subrange(start as int, end as int);
    let mut i: usize = 0;
    let mut v: u64 = 0;
    let mut scale: u64 = 1;
    while i < 10
        invariant
            start <= end <= buf@.len(),
            s == buf@.subrange(start as int, end as int),
            i <= 9,
            i <= s.len(),
            forall|j: int| 0 <= j < i ==> s[j] >= 128,
            v as nat == varint_value(s, i as nat),
            scale as nat == weight(i as nat),
            v < scale,
        decreases 10 - i,
    {
        if i >= end - start {
            proof {
                assert forall|k: nat| !is_varint_len(s, k) by {
                    if is_varint_len(s, k) && k - 1 < i {
                        assert(s[k - 1] >= 128);
                    }
                }
            }
            return None;
        }
        let b = buf[start + i];
        assert(b == s[i as int]);
        proof {
            lemma_weight_values();
            lemma_weight_monotonic(i as nat, 9);
        }
        if i == 9 {
            if b < 2 {
                assert(v + b as nat * scale <= 0xffff_ffff_ffff_ffff) by (nonlinear_arith)
                    requires
                        v < scale,
                        scale == 0x8000_0000_0000_0000nat,
                        b < 2,
                ;
                let r = v + (b as u64) * scale;
                proof {
                    assert(is_varint_len(s, 10));
                    assert forall|k: nat| is_varint_len(s, k) implies k == 10 by {
                        lemma_varint_len_unique(s, k, 10);
                    }
                }
                return Some((r, 10));
            } else {
                proof {
                    assert forall|k: nat| !is_varint_len(s, k) by {
                        if is_varint_len(s, k) && k - 1 < 9 {
                            assert(s[k - 1] >= 128);
                        }
                    }
                }
                return None;
            }
        }
        assert(scale * 128 <= 0x8000_0000_0000_0000) by {
            lemma_weight_monotonic(i as nat, 8);
        }
        if b < 128 {
            assert(v + b as nat * scale < 128 * scale) by (nonlinear_arith)
                requires
                    v < scale,
                    b < 128,
            ;
            let r = v + (b as u64) * scale;
            proof {
                assert(is_varint_len(s, (i + 1) as nat));
                assert forall|k: nat| is_varint_len(s, k) implies k == i + 1 by {
                    lemma_varint_len_unique(s, k, (i + 1) as nat);
                }
            }
            return Some((r, i + 1));
        }
        assert(v + (b - 128) as nat * scale < 128 * scale) by (nonlinear_arith)
            requires
                v < scale,
                128 <= b < 256,
        ;
        v = v + ((b - 128) as u64) * scale;
        scale = scale * 128;
        i = i + 1;
    }
    None
}

} // verus!
