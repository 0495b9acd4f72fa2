//! Little-endian integers and NUL-terminated text fields of the file header.

use vstd::prelude::*;
use vstd::utf8::{valid_utf8, decode_utf8};
use vstd::slice::slice_subrange;
use vstd::arithmetic::power2::{pow2, lemma2_to64, lemma2_to64_rest, lemma_pow2_adds, lemma_pow2_strictly_increases};

verus! {

/// The unsigned little-endian number held by `s[off..off + n]`.
pub open spec fn le_value(s: Seq<u8>, off: int, n: nat) -> nat
    decreases n,
{
    if n == 0 {
        0
    } else {
        s[off] as nat + 256 * le_value(s, off + 1, (n - 1) as nat)
    }
}

/// The bytes `n` little-endian bytes of `v` (reduced modulo 256^n).
pub open spec fn le_bytes(v: nat, n: nat) -> Seq<u8>
    decreases n,
{
    if n == 0 {
        Seq::empty()
    } else {
        seq![(v % 256) as u8] + le_bytes(v / 256, (n - 1) as nat)
    }
}

/// `le_bytes(v, n)` has `n` bytes.
pub proof fn lemma_le_bytes_len(v: nat, n: nat)
    ensures
        le_bytes(v, n).len() == n,
    decreases n,
{
    if n > 0 {
        lemma_le_bytes_len(v / 256, (n - 1) as nat);
    }
}

/// `s` with `bytes` written over it from `off` on.
pub open spec fn overwrite(s: Seq<u8>, off: int, bytes: Seq<u8>) -> Seq<u8> {
    s.subrange(0, off) + bytes + s.subrange(off + bytes.len(), s.len() as int)
}

/// Byte `m` of `le_bytes(v, n)` is the `m`-th base-256 digit of `v`.
pub proof fn lemma_le_bytes_index(v: nat, n: nat, m: nat)
    requires
        m < n,
    ensures
        le_bytes(v, n)[m as int] == (v / pow2(8 * m)) % 256,
    decreases m,
{
    lemma2_to64();
    lemma_le_bytes_len(v / 256, (n - 1) as nat);
    assert(le_bytes(v, n) == seq![(v % 256) as u8] + le_bytes(v / 256, (n - 1) as nat));
    if m == 0 {
        assert(v / 1 == v);
    } else {
        lemma_le_bytes_index(v / 256, (n - 1) as nat, (m - 1) as nat);
        lemma_pow2_adds(8, 8 * (m - 1) as nat);
        assert(8 + 8 * (m - 1) == 8 * m);
        vstd::arithmetic::power2::lemma_pow2_pos(8 * (m - 1) as nat);
        vstd::arithmetic::div_mod::lemma_div_denominator(v as int, 256, pow2(8 * (m - 1) as nat) as int);
    }
}

/// The bytes of a little-endian field are the `le_bytes` of its value.
pub proof fn lemma_le_value_bytes(s: Seq<u8>, off: int, n: nat)
    requires
        0 <= off,
        off + n <= s.len(),
    ensures
        s.subrange(off, off + n) == le_bytes(le_value(s, off, n), n),
    decreases n,
{
    lemma_le_bytes_len(le_value(s, off, n), n);
    if n > 0 {
        lemma_le_value_bytes(s, off + 1, (n - 1) as nat);
        let v = le_value(s, off, n);
        let r = le_value(s, off + 1, (n - 1) as nat);
        assert(v % 256 == s[off] as nat && v / 256 == r);
        assert(s.subrange(off, off + n) =~= seq![s[off]] + s.subrange(off + 1, off + n));
    }
}

/// Overwriting bytes elsewhere leaves a little-endian number unchanged.
pub proof fn lemma_le_value_overwrite_outside(s: Seq<u8>, off: int, bytes: Seq<u8>, q: int, n: nat)
    requires
        0 <= off,
        off + bytes.len() <= s.len(),
        0 <= q,
        q + n <= s.len(),
        q + n <= off || off + bytes.len() <= q,
    ensures
        le_value(overwrite(s, off, bytes), q, n) == le_value(s, q, n),
    decreases n,
{
    if n > 0 {
        let t = overwrite(s, off, bytes);
        assert(t[q] == s[q]);
        lemma_le_value_overwrite_outside(s, off, bytes, q + 1, (n - 1) as nat);
    }
}

/// A little-endian number written with `le_bytes` reads back modulo 256^n.
pub proof fn lemma_le_value_of_bytes(s: Seq<u8>, off: int, v: nat, n: nat)
    requires
        0 <= off,
        off + n <= s.len(),
        s.subrange(off, off + n) == le_bytes(v, n),
    ensures
        le_value(s, off, n) == v % pow2(8 * n),
    decreases n,
{
    lemma2_to64();
    lemma_le_bytes_len(v, n);
    if n == 0 {
    } else {
        let rest = le_bytes(v / 256, (n - 1) as nat);
        lemma_le_bytes_len(v / 256, (n - 1) as nat);
        assert(le_bytes(v, n) == seq![(v % 256) as u8] + rest);
        assert(s[off] == (v % 256) as u8) by {
            assert(s.subrange(off, off + n)[0] == s[off]);
        }
        assert(s.subrange(off + 1, off + n) =~= rest) by {
            assert forall|j: int| 0 <= j < n - 1 implies s.subrange(off + 1, off + n)[j] == rest[j] by {
                assert(s.subrange(off, off + n)[j + 1] == s[off + 1 + j]);
            }
        }
        lemma_le_value_of_bytes(s, off + 1, v / 256, (n - 1) as nat);
        let p = pow2(8 * (n - 1) as nat);
        lemma_pow2_adds(8, 8 * (n - 1) as nat);
        assert(8 + 8 * (n - 1) == 8 * n);
        assert(pow2(8 * n) == 256 * p);
        vstd::arithmetic::power2::lemma_pow2_pos(8 * (n - 1) as nat);
        vstd::arithmetic::div_mod::lemma_mod_breakdown(v as int, 256, p as int);
    }
}

/// Writing `bytes` at `off` puts them there and keeps the length.
pub proof fn lemma_overwrite_at(s: Seq<u8>, off: int, bytes: Seq<u8>)
    requires
        0 <= off,
        off + bytes.len() <= s.len(),
    ensures
        overwrite(s, off, bytes).len() == s.len(),
        overwrite(s, off, bytes).subrange(off, off + bytes.len()) == bytes,
{
    assert(overwrite(s, off, bytes).subrange(off, off + bytes.len()) =~= bytes);
}

pub(crate) proof fn lemma_le_value_bound(s: Seq<u8>, off: int, n: nat)
    ensures
        le_value(s, off, n) < pow2(8 * n),
    decreases n,
{
    if n == 0 {
        lemma2_to64();
    } else {
        lemma_le_value_bound(s, off + 1, (n - 1) as nat);
        lemma_pow2_adds(8, 8 * (n - 1) as nat);
        lemma2_to64();
        let p = pow2(8 * (n - 1) as nat);
        let r = le_value(s, off + 1, (n - 1) as nat);
        assert(s[off] as nat + 256 * r < 256 * p) by (nonlinear_arith)
            requires
                r < p,
                s[off] < 256,
        ;
        assert(8 + 8 * (n - 1) == 8 * n);
    }
}

/// Read the unsigned little-endian number of `n <= 8` bytes at `off`.
pub fn read_le(buf: &[u8], off: usize, n: usize) -> (v: u64)
    requires
        n <= 8,
        off + n <= buf@.len(),
    ensures
        v as nat == le_value(buf@, off as int, n as nat),
{
    let len = buf.len();
    let mut k = n;
    let mut acc: u64 = 0;
    while k > 0
        invariant
            len == buf@.len(),
            k <= n <= 8,
            off + n <= buf@.len(),
            acc as nat == le_value(buf@, (off + k) as int, (n - k) as nat),
        decreases k,
    {
        k -= 1;
        proof {
            lemma_le_value_bound(buf@, (off + k + 1) as int, (n - k - 1) as nat);
            lemma2_to64();
            lemma2_to64_rest();
            assert(pow2(8 * (n - k - 1) as nat) <= pow2(56)) by {
                if 8 * (n - k - 1) < 56 {
                    lemma_pow2_strictly_increases(8 * (n - k - 1) as nat, 56);
                }
            }
            assert(acc * 256 + 255 <= u64::MAX) by (nonlinear_arith)
                requires
                    acc < pow2(56),
                    pow2(56) == 0x100_0000_0000_0000,
            ;
        }
        acc = buf[off + k] as u64 + 256 * acc;
    }
    acc
}

/// What `String::from_utf8_lossy` makes of `bytes`.
pub uninterp spec fn utf8_lossy(bytes: Seq<u8>) -> Seq<char>;

/// Calls `String::from_utf8_lossy(bytes).into_owned()`. Trusted: the result
/// is `utf8_lossy(bytes)`, and valid UTF-8 comes back decoded unchanged, as
/// std documents. What it makes of invalid input (U+FFFD replacements) is
/// not stated.
#[verifier::external_body]
fn lossy_string(bytes: &[u8]) -> (s: String)
    ensures
        s@ == utf8_lossy(bytes@),
        valid_utf8(bytes@) ==> s@ == decode_utf8(bytes@),
{
    String::from_utf8_lossy(bytes).into_owned()
}

/// Index of the first NUL byte of `s` at or after `j`, or `s.len()`.
pub open spec fn first_nul_from(s: Seq<u8>, j: int) -> int
    decreases s.len() - j,
{
    if j >= s.len() || j < 0 {
        s.len() as int
    } else if s[j] == 0 {
        j
    } else {
        first_nul_from(s, j + 1)
    }
}

/// The C-string field of at most `max` bytes at `off`: the bytes up to the
/// first NUL, cut at the end of the buffer.
pub open spec fn c_field(buf: Seq<u8>, off: int, max: int) -> Seq<u8> {
    let end = if off + max < buf.len() {
        off + max
    } else {
        buf.len() as int
    };
    let field = buf.subrange(off, end);
    field.take(first_nul_from(field, 0))
}

/// Read a fixed-width C-string field at `off`, trimming at the first NUL and
/// decoding it lossily as UTF-8.
pub fn read_str(buf: &[u8], off: usize, max: usize) -> (s: String)
    requires
        off <= buf@.len(),
        off + max <= usize::MAX,
    ensures
        s@ == utf8_lossy(c_field(buf@, off as int, max as int)),
{
    let end = if off + max < buf.len() {
        off + max
    } else {
        buf.len()
    };
    let field = slice_subrange(buf, off, end);
    let mut j: usize = 0;
    while j < field.len() && field[j] != 0
        invariant
            j <= field@.len(),
            first_nul_from(field@, 0) == first_nul_from(field@, j as int),
        decreases field@.len() - j,
    {
        j += 1;
    }
    let text = slice_subrange(field, 0, j);
    proof {
        assert(text@ =~= field@.take(j as int));
    }
    lossy_string(text)
}

proof fn lemma_first_nul_from(s: Seq<u8>, j: int)
    requires
        0 <= j <= s.len(),
    ensures
        j <= first_nul_from(s, j) <= s.len(),
        forall|k: int| j <= k < first_nul_from(s, j) ==> s[k] != 0,
        first_nul_from(s, j) < s.len() ==> s[first_nul_from(s, j)] == 0,
    decreases s.len() - j,
{
    if j < s.len() && s[j] != 0 {
        lemma_first_nul_from(s, j + 1);
    }
}

/// A C-string field keeps every byte before its first NUL and nothing from
/// it on: the text read is a prefix of the field (the `max` bytes at `off`,
/// cut at the end of the buffer), holds no NUL byte, and is either the
/// whole field or followed in the field by a NUL byte.
pub proof fn lemma_c_field_cut(buf: Seq<u8>, off: int, max: int)
    requires
        0 <= off <= buf.len(),
        0 <= max,
    ensures
        ({
            let field = buf.subrange(off, if off + max < buf.len() { off + max } else { buf.len() as int });
            let r = c_field(buf, off, max);
            &&& r.len() <= field.len()
            &&& r == field.take(r.len() as int)
            &&& forall|k: int| 0 <= k < r.len() ==> r[k] != 0
            &&& (r.len() == field.len() || field[r.len() as int] == 0)
        }),
{
    let end = if off + max < buf.len() { off + max } else { buf.len() as int };
    let field = buf.subrange(off, end);
    lemma_first_nul_from(field, 0);
}

} // verus!
