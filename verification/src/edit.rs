//! Planning an edit of one varint field and splicing it into the payload.

use vstd::prelude::*;
use crate::error::Error;
use crate::save::SaveFile;
use crate::tree::{Container, WalkFailure, lemma_walk_nested, nested_around, reports_walk, spec_ancestor_chain};
use crate::bytes::overwrite;
use crate::varint::{encode_varint, lemma_varint_roundtrip, spec_read_varint, varint_encode};

verus! {

/// Replace `old_len` payload bytes at `off` by `bytes`.
pub ghost struct EditSpec {
    pub off: int,
    pub old_len: int,
    pub bytes: Seq<u8>,
}

/// One replacement of `old_len` payload bytes at `off` by `bytes`.
pub struct Edit {
    pub off: usize,
    pub old_len: usize,
    pub bytes: Vec<u8>,
}

impl View for Edit {
    type V = EditSpec;

    open spec fn view(&self) -> EditSpec {
        EditSpec { off: self.off as int, old_len: self.old_len as int, bytes: self.bytes@ }
    }
}

/// The views of a sequence of edits.
pub open spec fn edit_views(s: Seq<Edit>) -> Seq<EditSpec> {
    s.map_values(|e: Edit| e@)
}

/// New length prefixes for the containers of `chain` when the innermost one
/// grows by `delta` bytes: processed innermost first, each prefix re-encoded
/// for its new length and its own change in width passed outwards. The
/// result lists the edits outermost first. `None` when a length would become
/// negative (the declared length is taken as a signed 64-bit value).
pub open spec fn prefix_edits(chain: Seq<Container>, delta: int) -> Option<Seq<EditSpec>>
    decreases chain.len(),
{
    if chain.len() == 0 {
        Some(Seq::empty())
    } else {
        let c = chain.last();
        let new_len = (c.1 as i64) as int + delta;
        if new_len < 0 {
            None
        } else {
            let nb = varint_encode((new_len as u64) as nat);
            match prefix_edits(chain.drop_last(), delta + nb.len() - c.2) {
                None => None,
                Some(es) => Some(es.push(EditSpec { off: c.0 as int, old_len: c.2 as int, bytes: nb })),
            }
        }
    }
}

/// Why no edit plan exists.
pub ghost enum PlanFailure {
    Walk(WalkFailure),
    NegativeLength,
}

/// The edits, in increasing offset order, that replace the `byte_len`-byte
/// varint at `value_off` (the field whose tag is at `target`) by
/// `new_bytes`, fixing every enclosing length prefix when the width changes.
pub open spec fn spec_plan(d: Seq<u8>, target: int, value_off: int, byte_len: int, new_bytes: Seq<u8>) -> Result<
    Seq<EditSpec>,
    PlanFailure,
> {
    let value_edit = EditSpec { off: value_off, old_len: byte_len, bytes: new_bytes };
    if new_bytes.len() == byte_len {
        Ok(seq![value_edit])
    } else {
        match spec_ancestor_chain(d, target) {
            Err(f) => Err(PlanFailure::Walk(f)),
            Ok(chain) => match prefix_edits(chain, new_bytes.len() - byte_len) {
                None => Err(PlanFailure::NegativeLength),
                Some(es) => Ok(es.push(value_edit)),
            },
        }
    }
}

/// The error `e` reports the planning failure `f`.
pub open spec fn reports_plan(e: Error, f: PlanFailure) -> bool {
    match f {
        PlanFailure::Walk(w) => reports_walk(e, w),
        PlanFailure::NegativeLength => e matches Error::ParseError(m) && m@
            == "negative container length"@,
    }
}

/// The edits start at or after `lo`, do not overlap, and end by `hi`.
pub open spec fn edits_ordered(es: Seq<EditSpec>, lo: int, hi: int) -> bool {
    &&& forall|k: int| 0 <= k < es.len() ==> 0 <= (#[trigger] es[k]).old_len
    &&& es.len() > 0 ==> lo <= es[0].off
    &&& forall|k: int|
        0 <= k < es.len() - 1 ==> #[trigger] es[k].off + es[k].old_len <= es[k + 1].off
    &&& es.len() > 0 ==> es.last().off + es.last().old_len <= hi
}

/// `d` from `cur` on, with the edits applied.
#[verifier::opaque]
pub open spec fn spliced(d: Seq<u8>, es: Seq<EditSpec>, cur: int) -> Seq<u8>
    decreases es.len(),
{
    if es.len() == 0 {
        d.subrange(cur, d.len() as int)
    } else {
        d.subrange(cur, es[0].off) + es[0].bytes + spliced(
            d,
            es.drop_first(),
            es[0].off + es[0].old_len,
        )
    }
}

proof fn lemma_prefix_edits_shape(chain: Seq<Container>, delta: int)
    requires
        prefix_edits(chain, delta) is Some,
    ensures
        prefix_edits(chain, delta)->Some_0.len() == chain.len(),
        forall|k: int|
            0 <= k < chain.len() ==> {
                let e = #[trigger] prefix_edits(chain, delta)->Some_0[k];
                e.off == chain[k].0 && e.old_len == chain[k].2
            },
    decreases chain.len(),
{
    if chain.len() > 0 {
        let c = chain.last();
        let new_len = (c.1 as i64) as int + delta;
        let nb = varint_encode((new_len as u64) as nat);
        lemma_prefix_edits_shape(chain.drop_last(), delta + nb.len() - c.2);
    }
}

/// A plan lists its edits in increasing order, none overlapping, all inside
/// the payload.
pub proof fn lemma_plan_ordered(d: Seq<u8>, target: int, value_off: int, byte_len: int, new_bytes: Seq<u8>)
    requires
        d.len() <= usize::MAX,
        0 <= target,
        value_off == target + 1,
        0 <= byte_len,
        value_off + byte_len <= d.len(),
        spec_plan(d, target, value_off, byte_len, new_bytes) is Ok,
    ensures
        edits_ordered(spec_plan(d, target, value_off, byte_len, new_bytes)->Ok_0, 0, d.len() as int),
{
    let es = spec_plan(d, target, value_off, byte_len, new_bytes)->Ok_0;
    if new_bytes.len() != byte_len {
        let chain = spec_ancestor_chain(d, target)->Ok_0;
        lemma_walk_nested(d, target, 0, d.len() as int, Seq::empty());
        assert(chain.subrange(0, 0int) =~= Seq::<Container>::empty());
        assert(chain.subrange(0, chain.len() as int) =~= chain);
        let pe = prefix_edits(chain, new_bytes.len() - byte_len)->Some_0;
        lemma_prefix_edits_shape(chain, new_bytes.len() - byte_len);
        assert forall|k: int| 0 <= k < es.len() - 1 implies #[trigger] es[k].off + es[k].old_len
            <= es[k + 1].off by {
            if k + 1 < pe.len() {
                assert(es[k] == pe[k] && es[k + 1] == pe[k + 1]);
            } else {
                assert(es[k] == pe[k]);
                assert(chain[k].0 + chain[k].2 <= target);
            }
        }
        assert forall|k: int| 0 <= k < es.len() implies 0 <= (#[trigger] es[k]).old_len by {
            if k < pe.len() {
                assert(es[k] == pe[k]);
            }
        }
        if pe.len() > 0 {
            assert(es[0] == pe[0]);
        }
    }
}

/// Total change in length made by the edits from the `m`-th on.
pub open spec fn growth(es: Seq<EditSpec>, m: int) -> int
    decreases es.len() - m,
{
    if 0 <= m < es.len() {
        es[m].bytes.len() - es[m].old_len + growth(es, m + 1)
    } else {
        0
    }
}

proof fn lemma_growth_push(s: Seq<EditSpec>, e: EditSpec, m: int)
    requires
        0 <= m <= s.len(),
    ensures
        growth(s.push(e), m) == growth(s, m) + e.bytes.len() - e.old_len,
    decreases s.len() - m,
{
    if m < s.len() {
        lemma_growth_push(s, e, m + 1);
        assert(s.push(e)[m] == s[m]);
    } else {
        assert(s.push(e)[m] == e);
        assert(growth(s.push(e), m + 1) == 0);
    }
}

proof fn lemma_prefix_edits_lengths(chain: Seq<Container>, delta: int)
    requires
        prefix_edits(chain, delta) is Some,
        forall|k: int| 0 <= k < chain.len() ==> chain[k].1 <= i64::MAX,
    ensures
        ({
            let es = prefix_edits(chain, delta)->Some_0;
            &&& es.len() == chain.len()
            &&& forall|k: int|
                0 <= k < chain.len() ==> {
                    let l = chain[k].1 + delta + growth(es, k + 1);
                    &&& (#[trigger] es[k]).off == chain[k].0
                    &&& es[k].old_len == chain[k].2
                    &&& 0 <= l
                    &&& es[k].bytes == varint_encode((l as u64) as nat)
                }
        }),
    decreases chain.len(),
{
    if chain.len() > 0 {
        let n = chain.len() - 1;
        let c = chain.last();
        let new_len = (c.1 as i64) as int + delta;
        assert(c.1 <= i64::MAX);
        assert((c.1 as i64) as int == c.1);
        let nb = varint_encode((new_len as u64) as nat);
        let rest = chain.drop_last();
        let d2 = delta + nb.len() - c.2;
        assert forall|k: int| 0 <= k < rest.len() implies rest[k].1 <= i64::MAX by {
            assert(rest[k] == chain[k]);
        }
        lemma_prefix_edits_lengths(rest, d2);
        let prev = prefix_edits(rest, d2)->Some_0;
        let e = EditSpec { off: c.0 as int, old_len: c.2 as int, bytes: nb };
        let es = prefix_edits(chain, delta)->Some_0;
        assert(es == prev.push(e));
        assert forall|k: int| 0 <= k < chain.len() implies {
            let l = chain[k].1 + delta + growth(es, k + 1);
            &&& (#[trigger] es[k]).off == chain[k].0
            &&& es[k].old_len == chain[k].2
            &&& 0 <= l
            &&& es[k].bytes == varint_encode((l as u64) as nat)
        } by {
            if k < n {
                lemma_growth_push(prev, e, k + 1);
                assert(es[k] == prev[k]);
                assert(rest[k] == chain[k]);
            } else {
                assert(es[k] == e);
                assert(growth(es, k + 1) == 0);
            }
        }
    }
}

/// A width-changing edit fixes every enclosing length prefix: the plan
/// rewrites the prefix of each container that encloses the field, from the
/// outermost in, with that container's old declared length plus the growth
/// of everything it encloses (the prefixes of the containers inside it and
/// the value itself), and ends with the rewrite of the value. So each
/// container's declared length becomes its new content length.
pub proof fn lemma_plan_fixes_lengths(d: Seq<u8>, target: int, value_off: int, byte_len: int, new_bytes: Seq<u8>)
    requires
        new_bytes.len() != byte_len,
        spec_plan(d, target, value_off, byte_len, new_bytes) is Ok,
        forall|k: int|
            0 <= k < spec_ancestor_chain(d, target)->Ok_0.len() ==> (#[trigger] spec_ancestor_chain(
                d,
                target,
            )->Ok_0[k]).1 <= i64::MAX,
    ensures
        spec_ancestor_chain(d, target) is Ok,
        ({
            let chain = spec_ancestor_chain(d, target)->Ok_0;
            let es = spec_plan(d, target, value_off, byte_len, new_bytes)->Ok_0;
            &&& es.len() == chain.len() + 1
            &&& es.last() == EditSpec { off: value_off, old_len: byte_len, bytes: new_bytes }
            &&& forall|k: int|
                0 <= k < chain.len() ==> {
                    let l = chain[k].1 + growth(es, k + 1);
                    &&& (#[trigger] es[k]).off == chain[k].0
                    &&& es[k].old_len == chain[k].2
                    &&& 0 <= l
                    &&& l <= u64::MAX ==> es[k].bytes == varint_encode(l as nat)
                }
        }),
{
    let chain = spec_ancestor_chain(d, target)->Ok_0;
    let delta = new_bytes.len() - byte_len;
    let value_edit = EditSpec { off: value_off, old_len: byte_len, bytes: new_bytes };
    assert forall|k: int| 0 <= k < chain.len() implies chain[k].1 <= i64::MAX by {
        assert(spec_ancestor_chain(d, target)->Ok_0[k] == chain[k]);
    }
    lemma_prefix_edits_lengths(chain, delta);
    let pe = prefix_edits(chain, delta)->Some_0;
    let es = spec_plan(d, target, value_off, byte_len, new_bytes)->Ok_0;
    assert(es == pe.push(value_edit));
    assert forall|k: int| 0 <= k < chain.len() implies {
        let l = chain[k].1 + growth(es, k + 1);
        &&& (#[trigger] es[k]).off == chain[k].0
        &&& es[k].old_len == chain[k].2
        &&& 0 <= l
        &&& l <= u64::MAX ==> es[k].bytes == varint_encode(l as nat)
    } by {
        lemma_growth_push(pe, value_edit, k + 1);
        assert(es[k] == pe[k]);
    }
}

/// `o` with `tail` appended to the edits it holds.
pub open spec fn then_append(o: Option<Seq<EditSpec>>, tail: Seq<EditSpec>) -> Option<Seq<EditSpec>> {
    match o {
        None => None,
        Some(es) => Some(es + tail),
    }
}

proof fn lemma_prefix_edits_step(chain: Seq<Container>, k: int, delta: int, tail: Seq<EditSpec>)
    requires
        0 < k <= chain.len(),
    ensures
        ({
            let c = chain[k - 1];
            let new_len = (c.1 as i64) as int + delta;
            let nb = varint_encode((new_len as u64) as nat);
            let e = EditSpec { off: c.0 as int, old_len: c.2 as int, bytes: nb };
            new_len >= 0 ==> then_append(prefix_edits(chain.take(k), delta), tail) == then_append(
                prefix_edits(chain.take(k - 1), delta + nb.len() - c.2),
                seq![e] + tail,
            )
        }),
{
    assert(chain.take(k).drop_last() =~= chain.take(k - 1));
    let c = chain[k - 1];
    let new_len = (c.1 as i64) as int + delta;
    let nb = varint_encode((new_len as u64) as nat);
    let e = EditSpec { off: c.0 as int, old_len: c.2 as int, bytes: nb };
    if new_len >= 0 {
        match prefix_edits(chain.take(k - 1), delta + nb.len() - c.2) {
            None => {},
            Some(es) => {
                assert(es.push(e) + tail =~= es + (seq![e] + tail));
            },
        }
    }
}

/// The edits in reverse order.
fn reversed(v: Vec<Edit>) -> (out: Vec<Edit>)
    ensures
        out@.len() == v@.len(),
        forall|i: int| 0 <= i < v@.len() ==> #[trigger] out@[i] == v@[v@.len() - 1 - i],
{
    let mut v = v;
    let n = v.len();
    let mut out: Vec<Edit> = Vec::new();
    let ghost orig = v@;
    while out.len() < n
        invariant
            n == orig.len(),
            v@ == orig.take(n - out@.len()),
            out@.len() <= n,
            forall|i: int| 0 <= i < out@.len() ==> #[trigger] out@[i] == orig[n - 1 - i],
        decreases n - out@.len(),
    {
        let ghost k = out@.len();
        let e = v.pop().unwrap();
        proof {
            assert(e == orig[n - 1 - k]);
            assert(v@ =~= orig.take(n - k - 1));
        }
        out.push(e);
    }
    out
}

/// The new length prefixes for `chain` (containers whose prefixes are one
/// to ten bytes) when the innermost grows by `delta_inner`, outermost first.
fn prefix_edit_list(chain: &Vec<Container>, delta_inner: i128) -> (res: Result<Vec<Edit>, Error>)
    requires
        -10 <= delta_inner <= 10,
        forall|k: int| 0 <= k < chain@.len() ==> 1 <= (#[trigger] chain@[k]).2 <= 10,
    ensures
        match prefix_edits(chain@, delta_inner as int) {
            Some(es) => res matches Ok(v) && edit_views(v@) == es,
            None => res matches Err(e) && e matches Error::ParseError(m) && m@
                == "negative container length"@,
        },
{
    let n = chain.len();
    let mut inner_first: Vec<Edit> = Vec::new();
    let mut delta: i128 = delta_inner;
    let mut k = n;
    let ghost mut done: Seq<EditSpec> = Seq::empty();
    proof {
        assert(chain@.take(n as int) =~= chain@);
        match prefix_edits(chain@, delta_inner as int) {
            None => {},
            Some(es) => {
                assert(es + done =~= es);
            },
        }
    }
    while k > 0
        invariant
            n == chain@.len(),
            forall|m: int| 0 <= m < chain@.len() ==> 1 <= (#[trigger] chain@[m]).2 <= 10,
            k <= n,
            -10 * (n - k + 1) <= delta <= 10 * (n - k + 1),
            prefix_edits(chain@, delta_inner as int) == then_append(
                prefix_edits(chain@.take(k as int), delta as int),
                done,
            ),
            inner_first@.len() == done.len(),
            forall|i: int|
                0 <= i < done.len() ==> (#[trigger] inner_first@[i])@ == done[done.len() - 1 - i],
            done.len() == n - k,
        decreases k,
    {
        k -= 1;
        let (lp_off, length, lp_len) = chain[k];
        proof {
            assert(1 <= chain@[k as int].2 <= 10);
        }
        #[verifier::truncate]
        let signed = length as i64;
        let new_len: i128 = signed as i128 + delta;
        proof {
            lemma_prefix_edits_step(chain@, k + 1, delta as int, done);
            assert(chain@.take(k + 1).last() == chain@[k as int]);
            assert(chain@.take(k + 1).drop_last() =~= chain@.take(k as int));
        }
        if new_len < 0 {
            return Err(Error::ParseError(String::from_str("negative container length")));
        }
        #[verifier::truncate]
        let unsigned = new_len as u64;
        let nb = encode_varint(unsigned);
        let ghost e = EditSpec { off: lp_off as int, old_len: lp_len as int, bytes: nb@ };
        delta = delta + nb.len() as i128 - lp_len as i128;
        let ghost old_inner = inner_first@;
        inner_first.push(Edit { off: lp_off, old_len: lp_len, bytes: nb });
        proof {
            let old_done = done;
            done = seq![e] + done;
            assert forall|i: int| 0 <= i < done.len() implies (#[trigger] inner_first@[i])@
                == done[done.len() - 1 - i] by {
                if i < old_done.len() {
                    assert(inner_first@[i] == old_inner[i]);
                }
            }
        }
    }
    proof {
        assert(chain@.take(0) =~= Seq::<Container>::empty());
        assert(Seq::<EditSpec>::empty() + done =~= done);
    }
    let out = reversed(inner_first);
    proof {
        assert(edit_views(out@) =~= done);
    }
    Ok(out)
}

impl SaveFile {
    /// Plan the edits that put `new_bytes` in place of the `byte_len`-byte
    /// varint at `value_off`, whose field tag is at `target`: when the width
    /// changes, every enclosing container's length prefix is rewritten,
    /// innermost first, carrying each prefix's own change in width outwards.
    pub fn plan_edits(&self, target: usize, value_off: usize, byte_len: usize, new_bytes: Vec<u8>) -> (res: Result<Vec<Edit>, Error>)
        requires
            1 <= byte_len <= 10,
            1 <= new_bytes@.len() <= 10,
        ensures
            match spec_plan(self.decompressed@, target as int, value_off as int, byte_len as int, new_bytes@) {
                Ok(es) => res matches Ok(v) && edit_views(v@) == es,
                Err(f) => res matches Err(e) && reports_plan(e, f),
            },
    {
        let ghost d = self.decompressed@;
        let dlen = self.decompressed.len();
        let ghost value_edit = EditSpec { off: value_off as int, old_len: byte_len as int, bytes: new_bytes@ };
        let delta_inner: i128 = new_bytes.len() as i128 - byte_len as i128;
        let mut edits: Vec<Edit> = Vec::new();
        if delta_inner != 0 {
            let chain = match self.ancestor_chain(target) {
                Err(e) => return Err(e),
                Ok(c) => c,
            };
            proof {
                assert forall|k: int| 0 <= k < chain@.len() implies 1 <= (#[trigger] chain@[k]).2 <= 10 by {
                    assert(nested_around(chain@, 0, target as int));
                }
            }
            edits = match prefix_edit_list(&chain, delta_inner) {
                Err(e) => return Err(e),
                Ok(v) => v,
            };
        }
        let ghost before = edits@;
        edits.push(Edit { off: value_off, old_len: byte_len, bytes: new_bytes });
        proof {
            assert(edit_views(edits@) =~= edit_views(before).push(value_edit)) by {
                assert forall|i: int| 0 <= i < before.len() implies edit_views(edits@)[i] == edit_views(before)[i] by {
                    assert(edits@[i] == before[i]);
                }
            }
        }
        Ok(edits)
    }
}

proof fn lemma_spliced_step(d: Seq<u8>, es: Seq<EditSpec>, k: int, cur: int)
    requires
        0 <= k < es.len(),
    ensures
        spliced(d, es.skip(k), cur) == d.subrange(cur, es[k].off) + es[k].bytes + spliced(
            d,
            es.skip(k + 1),
            es[k].off + es[k].old_len,
        ),
{
    reveal(spliced);
    assert(es.skip(k)[0] == es[k]);
    assert(es.skip(k).drop_first() =~= es.skip(k + 1));
}

proof fn lemma_spliced_end(d: Seq<u8>, es: Seq<EditSpec>, cur: int)
    requires
        es.len() == 0,
    ensures
        spliced(d, es, cur) == d.subrange(cur, d.len() as int),
{
    reveal(spliced);
}

pub(crate) proof fn lemma_ordered_upper(es: Seq<EditSpec>, lo: int, hi: int, k: int)
    requires
        edits_ordered(es, lo, hi),
        0 <= k < es.len(),
    ensures
        es[k].off + es[k].old_len <= hi,
    decreases es.len() - k,
{
    if k < es.len() - 1 {
        lemma_ordered_upper(es, lo, hi, k + 1);
        assert(es[k].off + es[k].old_len <= es[k + 1].off);
        assert(0 <= es[k + 1].old_len);
    }
}

pub(crate) proof fn lemma_ordered_lower(es: Seq<EditSpec>, lo: int, hi: int, k: int)
    requires
        edits_ordered(es, lo, hi),
        0 <= k < es.len(),
    ensures
        lo <= es[k].off,
    decreases k,
{
    if k > 0 {
        lemma_ordered_lower(es, lo, hi, k - 1);
        assert(es[k - 1].off + es[k - 1].old_len <= es[k].off);
        assert(0 <= es[k - 1].old_len);
    }
}

/// Where the bytes copied from `d` just before the last edit begin: after the
/// edit before it, or at `cur` when there is only one.
pub open spec fn last_gap_start(es: Seq<EditSpec>, cur: int) -> int {
    if es.len() <= 1 {
        cur
    } else {
        es[es.len() - 2].off + es[es.len() - 2].old_len
    }
}

pub(crate) proof fn lemma_spliced_suffix(d: Seq<u8>, es: Seq<EditSpec>, cur: int)
    requires
        es.len() > 0,
        0 <= cur,
        edits_ordered(es, cur, d.len() as int),
    ensures
        ({
            let n = spliced(d, es, cur);
            let e = es.last();
            let g = last_gap_start(es, cur);
            let suffix = d.subrange(g, e.off) + e.bytes + d.subrange(e.off + e.old_len, d.len() as int);
            &&& n.len() >= suffix.len()
            &&& n.subrange(n.len() - suffix.len(), n.len() as int) == suffix
        }),
    decreases es.len(),
{
    reveal(spliced);
    let e0 = es[0];
    let rest = es.drop_first();
    let n = spliced(d, es, cur);
    if es.len() == 1 {
        assert(rest.len() == 0);
        assert(spliced(d, rest, e0.off + e0.old_len) == d.subrange(e0.off + e0.old_len, d.len() as int));
        assert(es.last() == e0);
        let suffix = d.subrange(cur, e0.off) + e0.bytes + d.subrange(e0.off + e0.old_len, d.len() as int);
        assert(n =~= suffix);
        assert(n.subrange(n.len() - suffix.len(), n.len() as int) =~= suffix);
    } else {
        let end0 = e0.off + e0.old_len;
        assert(0 <= e0.old_len);
        assert(edits_ordered(rest, end0, d.len() as int)) by {
            assert forall|k: int| 0 <= k < rest.len() - 1 implies #[trigger] rest[k].off + rest[k].old_len
                <= rest[k + 1].off by {
                assert(rest[k] == es[k + 1] && rest[k + 1] == es[k + 2]);
            }
            assert forall|k: int| 0 <= k < rest.len() implies 0 <= (#[trigger] rest[k]).old_len by {
                assert(rest[k] == es[k + 1]);
            }
            assert(rest[0] == es[1]);
            assert(rest.last() == es.last());
        }
        lemma_spliced_suffix(d, rest, end0);
        let r = spliced(d, rest, end0);
        assert(rest.last() == es.last());
        assert(last_gap_start(rest, end0) == last_gap_start(es, cur)) by {
            if rest.len() > 1 {
                assert(rest[rest.len() - 2] == es[es.len() - 2]);
            }
        }
        let e = es.last();
        let g = last_gap_start(es, cur);
        let suffix = d.subrange(g, e.off) + e.bytes + d.subrange(e.off + e.old_len, d.len() as int);
        assert(n == d.subrange(cur, e0.off) + e0.bytes + r);
        assert(n.subrange(n.len() - suffix.len(), n.len() as int) =~= r.subrange(
            r.len() - suffix.len(),
            r.len() as int,
        ));
    }
}

pub(crate) proof fn lemma_spliced_prefix(d: Seq<u8>, es: Seq<EditSpec>, cur: int)
    requires
        es.len() > 0,
        0 <= cur <= es[0].off <= d.len(),
    ensures
        spliced(d, es, cur).len() >= es[0].off - cur,
        spliced(d, es, cur).subrange(0, es[0].off - cur) == d.subrange(cur, es[0].off),
{
    reveal(spliced);
    let n = spliced(d, es, cur);
    assert(n == d.subrange(cur, es[0].off) + es[0].bytes + spliced(d, es.drop_first(), es[0].off + es[0].old_len));
    assert(n.subrange(0, es[0].off - cur) =~= d.subrange(cur, es[0].off));
}

/// After a planned edit of the varint field whose tag is at `target`, the
/// edited payload holds, right after that tag byte, the encoding of the new
/// value `v`, which decodes back to `v`; everything after the field is
/// unchanged.
#[verifier::rlimit(40)]
pub proof fn lemma_edit_reads_back(d: Seq<u8>, target: int, value_off: int, byte_len: int, v: u64)
    requires
        d.len() <= usize::MAX,
        0 <= target,
        value_off == target + 1,
        0 <= byte_len,
        value_off + byte_len <= d.len(),
        spec_plan(d, target, value_off, byte_len, varint_encode(v as nat)) is Ok,
    ensures
        ({
            let enc = varint_encode(v as nat);
            let nd = spliced(d, spec_plan(d, target, value_off, byte_len, enc)->Ok_0, 0);
            let tail = d.subrange(value_off + byte_len, d.len() as int);
            let p = nd.len() - tail.len() - enc.len();
            &&& 1 <= p
            &&& nd[p - 1] == d[target]
            &&& nd.subrange(p, p + enc.len()) == enc
            &&& nd.subrange(p + enc.len(), nd.len() as int) == tail
            &&& spec_read_varint(nd, p) == Some((v, (p + enc.len()) as usize, enc.len() as usize))
        }),
{
    let enc = varint_encode(v as nat);
    let es = spec_plan(d, target, value_off, byte_len, enc)->Ok_0;
    lemma_plan_ordered(d, target, value_off, byte_len, enc);
    lemma_spliced_suffix(d, es, 0);
    let nd = spliced(d, es, 0);
    let e = es.last();
    assert(e == EditSpec { off: value_off, old_len: byte_len, bytes: enc });
    let g = last_gap_start(es, 0);
    assert(g <= target) by {
        if es.len() > 1 {
            let chain = spec_ancestor_chain(d, target)->Ok_0;
            lemma_walk_nested(d, target, 0, d.len() as int, Seq::empty());
            assert(chain.subrange(0, chain.len() as int) =~= chain);
            assert(chain.subrange(0, 0int) =~= Seq::<Container>::empty());
            let pe = prefix_edits(chain, enc.len() - byte_len)->Some_0;
            lemma_prefix_edits_shape(chain, enc.len() - byte_len);
            assert(es[es.len() - 2] == pe[pe.len() - 1]);
            assert(chain[chain.len() - 1].0 + chain[chain.len() - 1].2 <= target);
        }
    }
    let tail = d.subrange(value_off + byte_len, d.len() as int);
    let gap = d.subrange(g, value_off);
    let suffix = gap + enc + tail;
    let p = nd.len() - tail.len() - enc.len();
    let sfx = nd.subrange(nd.len() - suffix.len(), nd.len() as int);
    assert(sfx == suffix);
    assert(nd[p - 1] == d[target]) by {
        assert(sfx[gap.len() - 1] == nd[p - 1]);
        assert(suffix[gap.len() - 1] == gap[gap.len() - 1]);
    }
    assert(nd.subrange(p, p + enc.len()) =~= enc) by {
        assert forall|j: int| 0 <= j < enc.len() implies nd.subrange(p, p + enc.len())[j] == enc[j] by {
            assert(sfx[gap.len() + j] == nd[p + j]);
            assert(suffix[gap.len() + j] == enc[j]);
        }
    }
    assert(nd.subrange(p + enc.len(), nd.len() as int) =~= tail) by {
        assert forall|j: int| 0 <= j < tail.len() implies nd.subrange(p + enc.len(), nd.len() as int)[j] == tail[j] by {
            assert(sfx[gap.len() + enc.len() + j] == nd[p + enc.len() + j]);
            assert(suffix[gap.len() + enc.len() + j] == tail[j]);
        }
    }
    lemma_varint_roundtrip(v, nd, p);
}

/// When the new value takes as many bytes as the old one, the plan is the
/// single overwrite of those bytes, and the payload keeps its length;
/// writing the bytes already there leaves the payload unchanged.
pub proof fn lemma_same_width_edit(d: Seq<u8>, target: int, value_off: int, byte_len: int, new_bytes: Seq<u8>)
    requires
        0 <= value_off,
        new_bytes.len() == byte_len,
        value_off + byte_len <= d.len(),
    ensures
        spec_plan(d, target, value_off, byte_len, new_bytes) == Ok::<Seq<EditSpec>, PlanFailure>(
            seq![EditSpec { off: value_off, old_len: byte_len, bytes: new_bytes }],
        ),
        spliced(d, seq![EditSpec { off: value_off, old_len: byte_len, bytes: new_bytes }], 0)
            == overwrite(d, value_off, new_bytes),
        overwrite(d, value_off, new_bytes).len() == d.len(),
        d.subrange(value_off, value_off + byte_len) == new_bytes ==> overwrite(d, value_off, new_bytes)
            == d,
{
    reveal(spliced);
    let es = seq![EditSpec { off: value_off, old_len: byte_len, bytes: new_bytes }];
    assert(es.drop_first() =~= Seq::<EditSpec>::empty());
    assert(spliced(d, es.drop_first(), value_off + byte_len) == d.subrange(value_off + byte_len, d.len() as int));
    assert(spliced(d, es, 0) =~= overwrite(d, value_off, new_bytes));
    if d.subrange(value_off, value_off + byte_len) == new_bytes {
        assert(overwrite(d, value_off, new_bytes) =~= d);
    }
}

/// Two same-width rewrites of one field, the second made on the payload the
/// first produced, give the payload that the second alone gives: editing to
/// `a` and then to `b` is editing to `b`, and editing back to the bytes the
/// field held restores the payload.
pub proof fn lemma_same_width_twice(
    d: Seq<u8>,
    target: int,
    value_off: int,
    byte_len: int,
    a: Seq<u8>,
    b: Seq<u8>,
)
    requires
        0 <= value_off,
        a.len() == byte_len,
        b.len() == byte_len,
        value_off + byte_len <= d.len(),
    ensures
        ({
            let ea = EditSpec { off: value_off, old_len: byte_len, bytes: a };
            let eb = EditSpec { off: value_off, old_len: byte_len, bytes: b };
            let nd1 = spliced(d, seq![ea], 0);
            &&& spec_plan(d, target, value_off, byte_len, a) == Ok::<Seq<EditSpec>, PlanFailure>(seq![ea])
            &&& spec_plan(nd1, target, value_off, byte_len, b) == Ok::<Seq<EditSpec>, PlanFailure>(seq![eb])
            &&& spliced(nd1, seq![eb], 0) == spliced(d, seq![eb], 0)
            &&& b == d.subrange(value_off, value_off + byte_len) ==> spliced(nd1, seq![eb], 0) == d
        }),
{
    lemma_same_width_edit(d, target, value_off, byte_len, a);
    let nd1 = overwrite(d, value_off, a);
    lemma_same_width_edit(nd1, target, value_off, byte_len, b);
    lemma_same_width_edit(d, target, value_off, byte_len, b);
    assert(overwrite(nd1, value_off, b) =~= overwrite(d, value_off, b));
}

/// Apply `edits` (ordered, inside `d`) to `d`.
pub fn splice(d: &[u8], edits: &Vec<Edit>) -> (nd: Vec<u8>)
    requires
        edits_ordered(edit_views(edits@), 0, d@.len() as int),
    ensures
        nd@ == spliced(d@, edit_views(edits@), 0),
{
    let ghost es = edit_views(edits@);
    let dl = d.len();
    let mut nd: Vec<u8> = Vec::new();
    let mut cur: usize = 0;
    let mut k: usize = 0;
    proof {
        assert(es.skip(0) =~= es);
        assert(nd@ + spliced(d@, es, 0) =~= spliced(d@, es, 0));
        assert forall|m: int| 0 <= m < es.len() implies #[trigger] es[m].off + es[m].old_len <= d@.len() && 0 <= es[m].off by {
            lemma_ordered_upper(es, 0, d@.len() as int, m);
            lemma_ordered_lower(es, 0, d@.len() as int, m);
        }
    }
    while k < edits.len()
        invariant
            dl == d@.len(),
            es == edit_views(edits@),
            edits_ordered(es, 0, d@.len() as int),
            forall|m: int| 0 <= m < es.len() ==> #[trigger] es[m].off + es[m].old_len <= d@.len() && 0 <= es[m].off,
            k <= es.len(),
            k < es.len() ==> cur <= es[k as int].off,
            k == es.len() ==> cur <= d@.len(),
            nd@ + spliced(d@, es.skip(k as int), cur as int) == spliced(d@, es, 0),
        decreases es.len() - k,
    {
        let e = &edits[k];
        let off = e.off;
        proof {
            assert(es[k as int] == e@);
            assert(es[k as int].off + es[k as int].old_len <= d@.len());
        }
        let ghost old_nd = nd@;
        append_range(&mut nd, d, cur, off);
        append_range(&mut nd, e.bytes.as_slice(), 0, e.bytes.len());
        proof {
            lemma_spliced_step(d@, es, k as int, cur as int);
            assert(e.bytes@.subrange(0, e.bytes@.len() as int) =~= e.bytes@);
            assert(nd@ =~= old_nd + d@.subrange(cur as int, off as int) + e.bytes@);
        }
        cur = off + e.old_len;
        k += 1;
        proof {
            assert(nd@ + spliced(d@, es.skip(k as int), cur as int) =~= spliced(d@, es, 0));
        }
    }
    proof {
        assert(es.skip(k as int) =~= Seq::<EditSpec>::empty());
        lemma_spliced_end(d@, es.skip(k as int), cur as int);
    }
    append_range(&mut nd, d, cur, d.len());
    proof {
        assert(nd@ =~= spliced(d@, es, 0));
    }
    nd
}

/// Append `src[from..to]` to `out`.
fn append_range(out: &mut Vec<u8>, src: &[u8], from: usize, to: usize)
    requires
        from <= to <= src@.len(),
    ensures
        final(out)@ == old(out)@ + src@.subrange(from as int, to as int),
{
    let mut j = from;
    while j < to
        invariant
            from <= j <= to <= src@.len(),
            out@ == old(out)@ + src@.subrange(from as int, j as int),
        decreases to - j,
    {
        out.push(src[j]);
        j += 1;
        proof {
            assert(src@.subrange(from as int, j as int) =~= src@.subrange(from as int, j - 1).push(src@[j - 1]));
        }
    }
}

} // verus!
