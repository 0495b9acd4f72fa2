//! Protobuf base-128 varints: decoding at an offset and minimal encoding.

use vstd::prelude::*;
use vstd::arithmetic::power2::{pow2, lemma_pow2_adds, lemma2_to64, lemma2_to64_rest, lemma_pow2_pos, lemma_pow2_strictly_increases};
use vstd::bits::lemma_u64_shl_is_mul;

verus! {

/// 2^64, the modulus of `u64` arithmetic.
pub open spec fn two_pow_64() -> nat {
    0x1_0000_0000_0000_0000
}

/// 128^k, the weight of the k-th seven-bit group.
pub open spec fn pow128(k: nat) -> nat {
    pow2(7 * k)
}

/// The number carried by a sequence of varint bytes: the low seven bits of
/// each byte, least significant group first.
pub open spec fn varint_payload(bytes: Seq<u8>) -> nat
    decreases bytes.len(),
{
    if bytes.len() == 0 {
        0
    } else {
        varint_payload(bytes.drop_last()) + (bytes.last() % 128) as nat * pow2(
            (7 * (bytes.len() - 1)) as nat,
        )
    }
}

/// Number of bytes of the varint that starts at `start`, having already seen
/// `k` continuation bytes: the first byte without the high bit ends it. A
/// varint has at most ten bytes and must end inside `buf`.
pub open spec fn varint_len_from(buf: Seq<u8>, start: int, k: nat) -> Option<nat>
    decreases 10 - k,
{
    if k >= 10 || start < 0 || start + k >= buf.len() {
        None
    } else if buf[start + k] < 128 {
        Some(k + 1)
    } else {
        varint_len_from(buf, start, k + 1)
    }
}

/// The varint at `start`: its value (reduced modulo 2^64), the offset just
/// past it, and its length in bytes.
pub open spec fn spec_read_varint(buf: Seq<u8>, start: int) -> Option<(u64, usize, usize)> {
    match varint_len_from(buf, start, 0) {
        Some(n) => Some(
            (
                (varint_payload(buf.subrange(start, start + n)) % two_pow_64()) as u64,
                (start + n) as usize,
                n as usize,
            ),
        ),
        None => None,
    }
}

/// The minimal varint encoding of `v`.
pub open spec fn varint_encode(v: nat) -> Seq<u8>
    decreases v,
{
    if v < 128 {
        seq![v as u8]
    } else {
        seq![(v % 128 + 128) as u8] + varint_encode(v / 128)
    }
}

proof fn lemma_payload_push(s: Seq<u8>, b: u8)
    ensures
        varint_payload(s.push(b)) == varint_payload(s) + (b % 128) as nat * pow2(
            (7 * s.len()) as nat,
        ),
{
    assert(s.push(b).drop_last() =~= s);
}

proof fn lemma_payload_prepend(b: u8, s: Seq<u8>)
    ensures
        varint_payload(seq![b] + s) == (b % 128) as nat + 128 * varint_payload(s),
    decreases s.len(),
{
    let t = seq![b] + s;
    lemma2_to64();
    if s.len() == 0 {
        assert(t =~= Seq::<u8>::empty().push(b));
        lemma_payload_push(Seq::<u8>::empty(), b);
        assert(varint_payload(Seq::<u8>::empty()) == 0);
        assert(pow2(0) == 1);
        assert(varint_payload(t) == (b % 128) as nat * pow2(0));
        assert(varint_payload(t) == (b % 128) as nat);
        assert(varint_payload(s) == 0);
    } else {
        let n = s.len();
        let sd = s.drop_last();
        assert(t =~= (seq![b] + sd).push(s.last()));
        assert(s =~= sd.push(s.last()));
        lemma_payload_prepend(b, sd);
        lemma_payload_push(seq![b] + sd, s.last());
        lemma_payload_push(sd, s.last());
        let x = (s.last() % 128) as nat;
        lemma_pow2_adds(7, (7 * (n - 1)) as nat);
        assert(7 + 7 * (n - 1) == 7 * n);
        let p = pow2((7 * (n - 1)) as nat);
        assert(pow2((7 * n) as nat) == 128 * p);
        assert(128 * (varint_payload(sd) + x * p) == 128 * varint_payload(sd) + x * (128 * p))
            by (nonlinear_arith);
        assert(varint_payload(t) == varint_payload(seq![b] + sd) + x * pow2((7 * n) as nat));
        assert(varint_payload(s) == varint_payload(sd) + x * p);
    }
}

proof fn lemma_encode_value(v: nat)
    ensures
        varint_payload(varint_encode(v)) == v,
    decreases v,
{
    if v < 128 {
        lemma_payload_push(Seq::<u8>::empty(), v as u8);
        assert(Seq::<u8>::empty().push(v as u8) =~= seq![v as u8]);
        assert(pow2(0) == 1) by { lemma2_to64(); }
        assert(varint_payload(Seq::<u8>::empty()) == 0);
        assert((v as u8) % 128 == v);
        assert(varint_payload(seq![v as u8]) == v * pow2(0));
    } else {
        let b = (v % 128 + 128) as u8;
        let rest = varint_encode(v / 128);
        lemma_encode_value(v / 128);
        lemma_payload_prepend(b, rest);
        assert(varint_encode(v) == seq![b] + rest);
        assert(b % 128 == v % 128);
        assert(v % 128 + 128 * (v / 128) == v);
    }
}

/// Facts about the minimal encoding: shape, value and width.
pub proof fn lemma_encode_shape(v: nat)
    ensures
        varint_encode(v).len() >= 1,
        varint_payload(varint_encode(v)) == v,
        forall|j: int| 0 <= j < varint_encode(v).len() - 1 ==> varint_encode(v)[j] >= 128,
        varint_encode(v).last() < 128,
        varint_encode(v).len() > 1 ==> varint_encode(v).last() != 0,
        forall|k: nat| v < #[trigger] pow128(k) && k >= 1 ==> varint_encode(v).len() <= k,
    decreases v,
{
    lemma_encode_value(v);
    if v < 128 {
    } else {
        let b = (v % 128 + 128) as u8;
        let rest = varint_encode(v / 128);
        lemma_encode_shape(v / 128);
        assert(varint_encode(v) == seq![b] + rest);
        assert forall|j: int| 0 <= j < varint_encode(v).len() - 1 implies varint_encode(v)[j]
            >= 128 by {
            if j > 0 {
                assert(varint_encode(v)[j] == rest[j - 1]);
            }
        }
        assert forall|k: nat| v < #[trigger] pow128(k) && k >= 1 implies varint_encode(v).len() <= k by {
            if k == 1 {
                assert(pow128(1) == pow2(7));
                assert(pow2(7) == 128) by { lemma2_to64(); }
            } else {
                let k1 = (k - 1) as nat;
                lemma_pow2_adds(7, 7 * k1);
                assert(pow2(7) == 128) by { lemma2_to64(); }
                assert(7 * k == 7 + 7 * k1);
                assert(v / 128 < pow128(k1)) by {
                    let p = pow2(7 * k1);
                    assert(pow128(k) == 128 * p);
                    assert(v < 128 * p);
                    assert(v / 128 < p) by (nonlinear_arith)
                        requires
                            v < 128 * p,
                    ;
                }
                assert(rest.len() <= k1);
            }
        }
    }
}

proof fn lemma_len_from_run(buf: Seq<u8>, start: int, n: nat, k: nat)
    requires
        1 <= n <= 10,
        k < n,
        0 <= start,
        start + n <= buf.len(),
        forall|j: int| start <= j < start + n - 1 ==> buf[j] >= 128,
        buf[start + n - 1] < 128,
    ensures
        varint_len_from(buf, start, k) == Some(n),
    decreases n - k,
{
    if k + 1 < n {
        lemma_len_from_run(buf, start, n, k + 1);
    }
}

/// Decoding the minimal encoding of `v`, wherever it stands in a buffer,
/// gives back `v` and the encoding's length; an encoding has at most ten
/// bytes.
pub proof fn lemma_varint_roundtrip(v: u64, buf: Seq<u8>, start: int)
    requires
        0 <= start,
        start + varint_encode(v as nat).len() <= buf.len(),
        buf.subrange(start, start + varint_encode(v as nat).len()) == varint_encode(v as nat),
    ensures
        varint_encode(v as nat).len() <= 10,
        spec_read_varint(buf, start) == Some(
            (
                v,
                (start + varint_encode(v as nat).len()) as usize,
                varint_encode(v as nat).len() as usize,
            ),
        ),
{
    let e = varint_encode(v as nat);
    lemma_encode_shape(v as nat);
    assert(v < pow2(70)) by {
        lemma2_to64();
        lemma2_to64_rest();
        lemma_pow2_strictly_increases(64, 70);
    }
    assert(7 * 10nat == 70);
    assert(v < pow128(10));
    let n = e.len();
    assert forall|j: int| start <= j < start + n - 1 implies buf[j] >= 128 by {
        assert(buf[j] == buf.subrange(start, start + n)[j - start]);
    }
    assert(buf[start + n - 1] == buf.subrange(start, start + n)[n - 1]);
    lemma_len_from_run(buf, start, n, 0);
}

proof fn lemma_group_step(val: u64, x: u64, k: nat)
    requires
        k <= 8,
        x < 128,
        val < pow2(7 * k),
    ensures
        (val | (x << ((7 * k) as u64))) == val + x * pow2(7 * k),
        val + x * pow2(7 * k) < pow2(7 * (k + 1)),
{
    let s = (7 * k) as u64;
    lemma2_to64();
    lemma2_to64_rest();
    assert(pow2(7 * k) <= pow2(56)) by {
        if 7 * k < 56 {
            lemma_pow2_strictly_increases(7 * k, 56);
        }
    }
    lemma_pow2_adds(7 * k, 7);
    assert(7 * (k + 1) == 7 * k + 7);
    assert(x * pow2(7 * k) <= 127 * pow2(56)) by (nonlinear_arith)
        requires
            x < 128,
            pow2(7 * k) <= pow2(56),
    ;
    lemma_u64_shl_is_mul(1, s);
    lemma_u64_shl_is_mul(x, s);
    assert(val < (1u64 << s));
    assert((val | (x << s)) == val + (x << s)) by (bit_vector)
        requires
            s <= 56,
            val < (1u64 << s),
            x < 128,
    ;
    assert(val + x * pow2(7 * k) < pow2(7 * k) * 128) by (nonlinear_arith)
        requires
            val < pow2(7 * k),
            x < 128,
    ;
}

proof fn lemma_last_group(val: u64, x: u64, p: nat)
    requires
        x < 128,
        val < pow2(63),
        p == val + x * pow2(63),
    ensures
        (val | (x << 63u64)) == p % two_pow_64(),
{
    lemma2_to64();
    lemma2_to64_rest();
    assert((val | (x << 63u64)) == val + ((x & 1) << 63u64)) by (bit_vector)
        requires
            val < 0x8000_0000_0000_0000u64,
    ;
    assert(x & 1 == x % 2) by (bit_vector);
    lemma_u64_shl_is_mul(x & 1, 63);
    assert(p % two_pow_64() == val + (x % 2) * pow2(63)) by (nonlinear_arith)
        requires
            p == val + x * pow2(63),
            val < pow2(63),
            two_pow_64() == 2 * pow2(63),
            x < 128,
    ;
}

/// A decoded varint lies inside the buffer and has one to ten bytes.
pub proof fn lemma_read_varint_bounds(buf: Seq<u8>, start: int)
    requires
        buf.len() <= usize::MAX,
    ensures
        spec_read_varint(buf, start) matches Some((_, next, n)) ==> {
            &&& 0 <= start < buf.len()
            &&& 1 <= n <= 10
            &&& next == start + n
            &&& next <= buf.len()
        },
{
    if let Some(n) = varint_len_from(buf, start, 0) {
        lemma_len_from_bounds(buf, start, 0);
    }
}

proof fn lemma_len_from_bounds(buf: Seq<u8>, start: int, k: nat)
    ensures
        varint_len_from(buf, start, k) matches Some(n) ==> k + 1 <= n <= 10 && 0 <= start
            && start + n <= buf.len(),
    decreases 10 - k,
{
    if k < 10 && start >= 0 && start + k < buf.len() && buf[start + k] >= 128 {
        lemma_len_from_bounds(buf, start, k + 1);
    }
}

/// Decode the protobuf varint that starts at `i`: its value, the offset just
/// past it, and its length in bytes. `None` when the buffer ends inside it or
/// it runs past ten bytes.
pub fn read_varint(buf: &[u8], i: usize) -> (res: Option<(u64, usize, usize)>)
    ensures
        res == spec_read_varint(buf@, i as int),
{
    if i >= buf.len() {
        return None;
    }
    let start = i;
    let mut pos = i;
    let mut shift: u32 = 0;
    let mut val: u64 = 0;
    let ghost mut k: nat = 0;
    proof {
        assert(buf@.subrange(start as int, start as int) =~= Seq::<u8>::empty());
        assert(pow2(0) == 1) by { lemma2_to64(); }
    }
    loop
        invariant
            start <= pos <= buf.len(),
            start < buf.len(),
            start == i,
            pos == start + k,
            k <= 10,
            shift == 7 * k,
            forall|j: int| start <= j < pos ==> buf@[j] >= 128,
            varint_len_from(buf@, start as int, 0) == varint_len_from(buf@, start as int, k),
            k <= 9 ==> val == varint_payload(buf@.subrange(start as int, pos as int)),
            k <= 9 ==> val < pow2(7 * k),
        decreases 10 - k,
    {
        if pos >= buf.len() || shift > 63 {
            proof {
                assert(varint_len_from(buf@, start as int, k) is None);
            }
            return None;
        }
        let b = buf[pos];
        let x = (b & 0x7f) as u64;
        proof {
            assert(b & 0x7f == b % 128) by (bit_vector);
            assert((b & 0x80 == 0) == (b < 128)) by (bit_vector);
            let s = buf@.subrange(start as int, pos as int);
            assert(buf@.subrange(start as int, pos + 1) =~= s.push(b));
            lemma_payload_push(s, b);
            assert(s.len() == k);
        }
        let ghost old_val = val;
        val = val | (x << shift);
        let ghost p = varint_payload(buf@.subrange(start as int, pos + 1));
        proof {
            if k <= 8 {
                lemma_group_step(old_val, x, k);
                assert(val == p);
            } else {
                assert(7 * k == 63);
                lemma_last_group(old_val, x, p);
                assert(val == p % two_pow_64());
            }
        }
        pos += 1;
        if b & 0x80 == 0 {
            proof {
                assert(varint_len_from(buf@, start as int, k) == Some(k + 1));
                if k <= 8 {
                    assert(p < pow2(64)) by {
                        lemma2_to64();
                        lemma2_to64_rest();
                        if 7 * (k + 1) < 64 {
                            lemma_pow2_strictly_increases(7 * (k + 1), 64);
                        }
                    }
                    assert(two_pow_64() == pow2(64)) by { lemma2_to64_rest(); }
                    assert(p % two_pow_64() == p) by (nonlinear_arith)
                        requires p < two_pow_64();
                }
                assert(val == p % two_pow_64());
                assert(spec_read_varint(buf@, i as int) == Some(((p % two_pow_64()) as u64, pos, (k + 1) as usize)));
            }
            return Some((val, pos, pos - start));
        }
        shift += 7;
        proof {
            k = k + 1;
        }
    }
}

/// Encode `v` as a minimal protobuf varint.
pub fn encode_varint(v: u64) -> (out: Vec<u8>)
    ensures
        out@ == varint_encode(v as nat),
        1 <= out@.len() <= 10,
{
    let ghost v0 = v;
    let mut v = v;
    let mut out: Vec<u8> = Vec::new();
    loop
        invariant_except_break
            out@ + varint_encode(v as nat) == varint_encode(v0 as nat),
        ensures
            out@ == varint_encode(v0 as nat),
        decreases v,
    {
        let b = (v & 0x7f) as u8;
        proof {
            assert(v & 0x7f == v % 128) by (bit_vector);
            assert(v >> 7 == v / 128) by (bit_vector);
            assert(b < 128);
            assert(b | 0x80 == b + 128) by (bit_vector)
                requires
                    b < 128,
            ;
        }
        let ghost old_v = v;
        v = v >> 7;
        if v != 0 {
            proof {
                assert(varint_encode(old_v as nat) == seq![(b + 128) as u8] + varint_encode(
                    v as nat,
                ));
                assert(out@.push((b + 128) as u8) + varint_encode(v as nat) =~= out@
                    + varint_encode(old_v as nat));
            }
            out.push(b | 0x80);
        } else {
            proof {
                assert(varint_encode(old_v as nat) == seq![b]);
                assert(out@.push(b) =~= out@ + varint_encode(old_v as nat));
            }
            out.push(b);
            break ;
        }
    }
    proof {
        lemma_encode_shape(v0 as nat);
        assert(varint_encode(v0 as nat).subrange(0, varint_encode(v0 as nat).len() as int)
            =~= varint_encode(v0 as nat));
        lemma_varint_roundtrip(v0, varint_encode(v0 as nat), 0);
    }
    out
}

} // verus!
