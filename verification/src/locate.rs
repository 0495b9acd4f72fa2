//! Locating the gold and renown fields in the decompressed payload.

use vstd::prelude::*;
use crate::error::Error;
use crate::save::SaveFile;
use crate::varint::{lemma_read_varint_bounds, lemma_varint_roundtrip, read_varint, spec_read_varint, varint_encode};

verus! {

/// Location of the gold field within the decompressed payload.
#[derive(Clone, Copy, Debug, PartialEq, Eq)]
pub struct GoldLoc {
    /// Offset of the field-6 tag byte (0x30).
    pub tag_off: usize,
    /// Offset of the first varint byte.
    pub value_off: usize,
    /// Current varint byte length.
    pub byte_len: usize,
    pub value: u64,
}

/// Location of the renown field within the decompressed payload.
#[derive(Clone, Copy, Debug, PartialEq, Eq)]
pub struct RenownLoc {
    /// Offset of the first varint byte of the renown value.
    pub value_off: usize,
    /// Current varint byte length.
    pub byte_len: usize,
    pub value: u64,
}

/// The gold record shape `2a <len> <id> 30 <gold> 3a` starting at `i`: a
/// length-delimited field 5, the varint field 6 right after it, and the tag
/// of field 7 right after that.
pub open spec fn gold_record_at(d: Seq<u8>, i: int) -> Option<GoldLoc> {
    if !(0 <= i && i + 2 < d.len() && d[i] == 0x2au8) {
        None
    } else {
        match spec_read_varint(d, i + 1) {
            None => None,
            Some((id_len, id_start, _)) => {
                let tag_off = id_start + id_len;
                if !(tag_off < d.len() && d[tag_off] == 0x30u8) {
                    None
                } else {
                    match spec_read_varint(d, tag_off + 1) {
                        None => None,
                        Some((val, j, ln)) => if j < d.len() && d[j as int] == 0x3au8 {
                            Some(
                                GoldLoc {
                                    tag_off: tag_off as usize,
                                    value_off: (tag_off + 1) as usize,
                                    byte_len: ln,
                                    value: val,
                                },
                            )
                        } else {
                            None
                        },
                    }
                }
            },
        }
    }
}

/// The gold records starting before `n`, in order.
pub open spec fn gold_hits(d: Seq<u8>, n: nat) -> Seq<GoldLoc>
    decreases n,
{
    if n == 0 {
        Seq::empty()
    } else {
        let prev = gold_hits(d, (n - 1) as nat);
        match gold_record_at(d, n - 1) {
            Some(g) => prev.push(g),
            None => prev,
        }
    }
}

/// Every gold record of the payload, in order.
pub open spec fn gold_candidates(d: Seq<u8>) -> Seq<GoldLoc> {
    gold_hits(d, d.len())
}

/// The constant record-type prefix of a reputation record, up to and
/// including the `22` submessage tag.
pub open spec fn anchor_at(d: Seq<u8>, i: int) -> bool {
    &&& d[i] == 0x20u8
    &&& d[i + 1] == 0x89u8
    &&& d[i + 2] == 0xc8u8
    &&& d[i + 3] == 0x9bu8
    &&& d[i + 4] == 0xddu8
    &&& d[i + 5] == 0x02u8
    &&& d[i + 6] == 0x22u8
}

/// The constant id2 trailer (field 5 = 1723) after the submessage.
pub open spec fn id2_at(d: Seq<u8>, i: int) -> bool {
    &&& d[i] == 0x28u8
    &&& d[i + 1] == 0xbbu8
    &&& d[i + 2] == 0x0du8
}

/// The reputation record `20 89 c8 9b dd 02 22 <len> 08 <id1> 10 <value> 28 bb 0d`
/// starting at `i`, where the submessage is exactly `08 <id1> 10 <value>` and
/// `value == current`.
pub open spec fn renown_record_at(d: Seq<u8>, i: int, current: u64) -> Option<RenownLoc> {
    if !(0 <= i && i + 7 < d.len() && anchor_at(d, i)) {
        None
    } else {
        match spec_read_varint(d, i + 7) {
            None => None,
            Some((sublen, sub_start, _)) => {
                let sub_end = sub_start + sublen;
                if sub_end + 3 > d.len() || d[sub_start as int] != 0x08u8 {
                    None
                } else {
                    match spec_read_varint(d, sub_start + 1) {
                        None => None,
                        Some((_, after_id1, _)) => if !(after_id1 < d.len() && d[after_id1 as int]
                            == 0x10u8) {
                            None
                        } else {
                            match spec_read_varint(d, after_id1 + 1) {
                                None => None,
                                Some((val, after_val, vl)) => if after_val == sub_end && id2_at(
                                    d,
                                    sub_end,
                                ) && val == current {
                                    Some(
                                        RenownLoc {
                                            value_off: (after_id1 + 1) as usize,
                                            byte_len: vl,
                                            value: val,
                                        },
                                    )
                                } else {
                                    None
                                },
                            }
                        },
                    }
                }
            },
        }
    }
}

/// The reputation records holding `current` that start before `n`, in order.
pub open spec fn renown_hits(d: Seq<u8>, current: u64, n: nat) -> Seq<RenownLoc>
    decreases n,
{
    if n == 0 {
        Seq::empty()
    } else {
        let prev = renown_hits(d, current, (n - 1) as nat);
        match renown_record_at(d, n - 1, current) {
            Some(r) => prev.push(r),
            None => prev,
        }
    }
}

/// Every reputation record of the payload holding `current`, in order.
pub open spec fn renown_candidates(d: Seq<u8>, current: u64) -> Seq<RenownLoc> {
    renown_hits(d, current, d.len())
}

/// The bytes of a gold record: `2a`, the id's length, the id bytes, `30`,
/// the gold value `v`, then the tag `3a` of the next field.
pub open spec fn gold_record_bytes(id: Seq<u8>, v: u64) -> Seq<u8> {
    seq![0x2au8] + varint_encode(id.len()) + id + seq![0x30u8] + varint_encode(v as nat) + seq![0x3au8]
}

/// The submessage `08 <id1> 10 <v>` of a reputation record.
pub open spec fn renown_submessage(id1: u64, v: u64) -> Seq<u8> {
    seq![0x08u8] + varint_encode(id1 as nat) + seq![0x10u8] + varint_encode(v as nat)
}

/// The bytes of a reputation record holding `v` for the id `id1`:
/// `20 89 c8 9b dd 02 22`, the submessage's length, the submessage, and the
/// trailer `28 bb 0d`.
pub open spec fn renown_record_bytes(id1: u64, v: u64) -> Seq<u8> {
    seq![0x20u8, 0x89u8, 0xc8u8, 0x9bu8, 0xddu8, 0x02u8, 0x22u8] + varint_encode(
        renown_submessage(id1, v).len(),
    ) + renown_submessage(id1, v) + seq![0x28u8, 0xbbu8, 0x0du8]
}

proof fn lemma_part_at(d: Seq<u8>, i: int, rec: Seq<u8>, a: int, part: Seq<u8>)
    requires
        0 <= i,
        i + rec.len() <= d.len(),
        d.subrange(i, i + rec.len()) == rec,
        0 <= a,
        a + part.len() <= rec.len(),
        rec.subrange(a, a + part.len()) == part,
    ensures
        d.subrange(i + a, i + a + part.len()) == part,
{
    assert forall|k: int| 0 <= k < part.len() implies d.subrange(i + a, i + a + part.len())[k] == part[k] by {
        assert(d.subrange(i, i + rec.len())[a + k] == rec[a + k]);
        assert(rec.subrange(a, a + part.len())[k] == rec[a + k]);
    }
    assert(d.subrange(i + a, i + a + part.len()) =~= part);
}

proof fn lemma_byte_at(d: Seq<u8>, i: int, rec: Seq<u8>, a: int)
    requires
        0 <= i,
        i + rec.len() <= d.len(),
        d.subrange(i, i + rec.len()) == rec,
        0 <= a < rec.len(),
    ensures
        d[i + a] == rec[a],
{
    assert(d.subrange(i, i + rec.len())[a] == rec[a]);
}

proof fn lemma_gold_hits_hold(d: Seq<u8>, i: int, n: nat)
    requires
        0 <= i < n,
        gold_record_at(d, i) is Some,
    ensures
        gold_hits(d, n).contains(gold_record_at(d, i)->Some_0),
    decreases n,
{
    let g = gold_record_at(d, i)->Some_0;
    if i == n - 1 {
        let h = gold_hits(d, n);
        assert(h.last() == g);
        assert(h[h.len() - 1] == g);
    } else {
        lemma_gold_hits_hold(d, i, (n - 1) as nat);
        let prev = gold_hits(d, (n - 1) as nat);
        let k = choose|k: int| 0 <= k < prev.len() && prev[k] == g;
        match gold_record_at(d, n - 1) {
            Some(x) => {
                assert(gold_hits(d, n) == prev.push(x));
                assert(gold_hits(d, n)[k] == g);
            },
            None => {},
        }
    }
}

proof fn lemma_renown_hits_hold(d: Seq<u8>, current: u64, i: int, n: nat)
    requires
        0 <= i < n,
        renown_record_at(d, i, current) is Some,
    ensures
        renown_hits(d, current, n).contains(renown_record_at(d, i, current)->Some_0),
    decreases n,
{
    let r = renown_record_at(d, i, current)->Some_0;
    if i == n - 1 {
        let h = renown_hits(d, current, n);
        assert(h[h.len() - 1] == r);
    } else {
        lemma_renown_hits_hold(d, current, i, (n - 1) as nat);
        let prev = renown_hits(d, current, (n - 1) as nat);
        let k = choose|k: int| 0 <= k < prev.len() && prev[k] == r;
        match renown_record_at(d, n - 1, current) {
            Some(x) => {
                assert(renown_hits(d, current, n) == prev.push(x));
                assert(renown_hits(d, current, n)[k] == r);
            },
            None => {},
        }
    }
}

/// Every gold record is found, whatever the width of its id length and of
/// its gold value: where the payload holds, at `i`, `2a`, the id's length as
/// a varint, the id, `30`, any `u64` gold value `v` as a varint and `3a`,
/// the record at `i` is a gold candidate with value `v`, its varint starting
/// right after the `30` tag and as wide as its encoding.
pub proof fn lemma_gold_record_found(d: Seq<u8>, i: int, id: Seq<u8>, v: u64)
    requires
        d.len() <= usize::MAX,
        0 <= i,
        i + gold_record_bytes(id, v).len() <= d.len(),
        d.subrange(i, i + gold_record_bytes(id, v).len()) == gold_record_bytes(id, v),
    ensures
        ({
            let tag_off = i + 1 + varint_encode(id.len()).len() + id.len();
            let g = GoldLoc {
                tag_off: tag_off as usize,
                value_off: (tag_off + 1) as usize,
                byte_len: varint_encode(v as nat).len() as usize,
                value: v,
            };
            &&& gold_record_at(d, i) == Some(g)
            &&& gold_candidates(d).contains(g)
        }),
{
    let rec = gold_record_bytes(id, v);
    let n: int = id.len() as int;
    let el = varint_encode(id.len());
    let ev = varint_encode(v as nat);
    let a: int = el.len() as int;
    let b: int = ev.len() as int;
    let tag_off = i + 1 + a + n;
    assert(rec.len() == 1 + a + n + 1 + b + 1);
    assert(n < 0x1_0000_0000_0000_0000);
    let nu = n as u64;
    assert(nu as nat == id.len());
    assert(rec.subrange(1, 1 + a) =~= el);
    lemma_part_at(d, i, rec, 1, el);
    lemma_varint_roundtrip(nu, d, i + 1);
    lemma_byte_at(d, i, rec, 0);
    lemma_byte_at(d, i, rec, 1 + a + n);
    assert(rec.subrange(2 + a + n, 2 + a + n + b) =~= ev);
    lemma_part_at(d, i, rec, 2 + a + n, ev);
    lemma_varint_roundtrip(v, d, tag_off + 1);
    lemma_byte_at(d, i, rec, 2 + a + n + b);
    let g = GoldLoc {
        tag_off: tag_off as usize,
        value_off: (tag_off + 1) as usize,
        byte_len: ev.len() as usize,
        value: v,
    };
    assert(gold_record_at(d, i) == Some(g));
    lemma_gold_hits_hold(d, i, d.len());
}

/// Every reputation record holding `v` is found, whatever the widths of its
/// id `id1` and of its value: where the payload holds, at `i`, the record
/// `20 89 c8 9b dd 02 22 <len> 08 <id1> 10 <v> 28 bb 0d` (each number a
/// varint, `len` the submessage's length), the record at `i` is a candidate
/// for the current value `v`, its value's varint starting right after the
/// `10` tag and as wide as its encoding.
pub proof fn lemma_renown_record_found(d: Seq<u8>, i: int, id1: u64, v: u64)
    requires
        d.len() <= usize::MAX,
        0 <= i,
        i + renown_record_bytes(id1, v).len() <= d.len(),
        d.subrange(i, i + renown_record_bytes(id1, v).len()) == renown_record_bytes(id1, v),
    ensures
        ({
            let sub_start = i + 7 + varint_encode(renown_submessage(id1, v).len()).len();
            let r = RenownLoc {
                value_off: (sub_start + 1 + varint_encode(id1 as nat).len() + 1) as usize,
                byte_len: varint_encode(v as nat).len() as usize,
                value: v,
            };
            &&& renown_record_at(d, i, v) == Some(r)
            &&& renown_candidates(d, v).contains(r)
        }),
{
    let rec = renown_record_bytes(id1, v);
    let sub = renown_submessage(id1, v);
    let e1 = varint_encode(id1 as nat);
    let ev = varint_encode(v as nat);
    let sl: int = sub.len() as int;
    let es = varint_encode(sub.len());
    let a: int = es.len() as int;
    let b: int = e1.len() as int;
    let c: int = ev.len() as int;
    assert(sl == 1 + b + 1 + c);
    assert(rec.len() == 7 + a + sl + 3);
    assert(sl < 0x1_0000_0000_0000_0000);
    let slu = sl as u64;
    assert(slu as nat == sub.len());
    let sub_start = i + 7 + a;
    let after_id1 = sub_start + 1 + b;
    let sub_end = sub_start + sl;
    let anchor = seq![0x20u8, 0x89u8, 0xc8u8, 0x9bu8, 0xddu8, 0x02u8, 0x22u8];
    assert forall|k: int| 0 <= k < 7 implies d[i + k] == anchor[k] by {
        lemma_byte_at(d, i, rec, k);
        assert(rec[k] == anchor[k]);
    }
    assert(rec.subrange(7, 7 + a) =~= es);
    lemma_part_at(d, i, rec, 7, es);
    lemma_varint_roundtrip(slu, d, i + 7);
    lemma_byte_at(d, i, rec, 7 + a);
    assert(rec.subrange(8 + a, 8 + a + b) =~= e1);
    lemma_part_at(d, i, rec, 8 + a, e1);
    lemma_varint_roundtrip(id1, d, sub_start + 1);
    lemma_byte_at(d, i, rec, 8 + a + b);
    assert(rec.subrange(9 + a + b, 9 + a + b + c) =~= ev);
    lemma_part_at(d, i, rec, 9 + a + b, ev);
    lemma_varint_roundtrip(v, d, after_id1 + 1);
    lemma_byte_at(d, i, rec, 7 + a + sl);
    lemma_byte_at(d, i, rec, 8 + a + sl);
    lemma_byte_at(d, i, rec, 9 + a + sl);
    assert(anchor_at(d, i));
    assert(id2_at(d, sub_end));
    let r = RenownLoc { value_off: (after_id1 + 1) as usize, byte_len: ev.len() as usize, value: v };
    assert(renown_record_at(d, i, v) == Some(r));
    lemma_renown_hits_hold(d, v, i, d.len());
}

/// Every gold record is what the matcher looks for: `2a` at its start, the
/// id length as a varint, the id, the `30` tag at `tag_off`, a varint of
/// `byte_len` bytes holding `value` right after that tag, then `3a`.
pub proof fn lemma_gold_record_shape(d: Seq<u8>, i: int)
    requires
        d.len() <= usize::MAX,
        gold_record_at(d, i) is Some,
    ensures
        ({
            let g = gold_record_at(d, i)->Some_0;
            &&& d[i] == 0x2au8
            &&& spec_read_varint(d, i + 1) matches Some((n, s, _)) && g.tag_off == s + n
            &&& d[g.tag_off as int] == 0x30u8
            &&& g.value_off == g.tag_off + 1
            &&& spec_read_varint(d, g.value_off as int) == Some(
                (g.value, (g.value_off + g.byte_len) as usize, g.byte_len),
            )
            &&& d[g.value_off + g.byte_len] == 0x3au8
        }),
{
    lemma_read_varint_bounds(d, i + 1);
    let (n, s, _) = spec_read_varint(d, i + 1)->Some_0;
    lemma_read_varint_bounds(d, s + n + 1);
}

/// Every reputation record matched for `current` is what the matcher looks
/// for: the constant prefix up to the `22` tag, the submessage length as a
/// varint, the submessage `08 <id1> 10 <value>` ending exactly where that
/// length says, `value == current` starting at `value_off` and `byte_len`
/// bytes wide, and the trailer `28 bb 0d` right after.
pub proof fn lemma_renown_record_shape(d: Seq<u8>, i: int, current: u64)
    requires
        d.len() <= usize::MAX,
        renown_record_at(d, i, current) is Some,
    ensures
        ({
            let r = renown_record_at(d, i, current)->Some_0;
            &&& anchor_at(d, i)
            &&& spec_read_varint(d, i + 7) matches Some((len, s, _)) && {
                &&& d[s as int] == 0x08u8
                &&& spec_read_varint(d, s + 1) matches Some((_, a, _)) && a + 1 == r.value_off
                &&& s + len == r.value_off + r.byte_len
            }
            &&& d[r.value_off - 1] == 0x10u8
            &&& r.value == current
            &&& spec_read_varint(d, r.value_off as int) == Some(
                (current, (r.value_off + r.byte_len) as usize, r.byte_len),
            )
            &&& id2_at(d, r.value_off + r.byte_len)
        }),
{
    lemma_read_varint_bounds(d, i + 7);
    let (len, s, _) = spec_read_varint(d, i + 7)->Some_0;
    lemma_read_varint_bounds(d, s + 1);
    let (_, a, _) = spec_read_varint(d, s + 1)->Some_0;
    lemma_read_varint_bounds(d, a + 1);
}

fn gold_record(d: &[u8], i: usize) -> (res: Option<GoldLoc>)
    requires
        i < d@.len(),
    ensures
        res == gold_record_at(d@, i as int),
{
    if !(d.len() - i > 2 && d[i] == 0x2a) {
        return None;
    }
    match read_varint(d, i + 1) {
        None => None,
        Some((id_len, id_start, _)) => {
            let t: u128 = id_start as u128 + id_len as u128;
            if !(t < d.len() as u128 && d[t as usize] == 0x30) {
                return None;
            }
            let tag_off = t as usize;
            match read_varint(d, tag_off + 1) {
                None => None,
                Some((val, j, ln)) => {
                    if j < d.len() && d[j] == 0x3a {
                        Some(GoldLoc { tag_off, value_off: tag_off + 1, byte_len: ln, value: val })
                    } else {
                        None
                    }
                },
            }
        },
    }
}

fn renown_record(d: &[u8], i: usize, current: u64) -> (res: Option<RenownLoc>)
    requires
        i < d@.len(),
    ensures
        res == renown_record_at(d@, i as int, current),
{
    if !(d.len() - i > 7 && d[i] == 0x20 && d[i + 1] == 0x89 && d[i + 2] == 0xc8 && d[i + 3]
        == 0x9b && d[i + 4] == 0xdd && d[i + 5] == 0x02 && d[i + 6] == 0x22) {
        return None;
    }
    let (sublen, sub_start, _) = match read_varint(d, i + 7) {
        None => return None,
        Some(r) => r,
    };
    let sub_end: u128 = sub_start as u128 + sublen as u128;
    if sub_end + 3 > d.len() as u128 {
        return None;
    }
    let sub_end = sub_end as usize;
    if d[sub_start] != 0x08 {
        return None;
    }
    let (_, after_id1, _) = match read_varint(d, sub_start + 1) {
        None => return None,
        Some(r) => r,
    };
    if !(after_id1 < d.len() && d[after_id1] == 0x10) {
        return None;
    }
    let (val, after_val, vl) = match read_varint(d, after_id1 + 1) {
        None => return None,
        Some(r) => r,
    };
    if after_val == sub_end && d[sub_end] == 0x28 && d[sub_end + 1] == 0xbb && d[sub_end + 2]
        == 0x0d && val == current {
        Some(RenownLoc { value_off: after_id1 + 1, byte_len: vl, value: val })
    } else {
        None
    }
}

impl SaveFile {
    /// Locate the (unique) gold field. The record has the shape
    /// `2a <len> <id bytes> 30 <gold varint> 3a`; exactly one match is
    /// required. The id's length is read as a varint (4 bytes in save format
    /// v7, 6 in v8).
    pub fn find_gold(&self) -> (res: Result<GoldLoc, Error>)
        ensures
            gold_candidates(self.decompressed@).len() == 1 ==> res == Ok::<GoldLoc, Error>(
                gold_candidates(self.decompressed@)[0],
            ),
            gold_candidates(self.decompressed@).len() != 1 ==> (res matches Err(
                Error::GoldNotFound(n),
            ) && n == gold_candidates(self.decompressed@).len()),
    {
        let d = self.decompressed.as_slice();
        let mut hits: Vec<GoldLoc> = Vec::new();
        let mut i: usize = 0;
        while i < d.len()
            invariant
                d@ == self.decompressed@,
                i <= d@.len(),
                hits@ == gold_hits(d@, i as nat),
                hits@.len() <= i,
            decreases d@.len() - i,
        {
            match gold_record(d, i) {
                Some(g) => hits.push(g),
                None => {},
            }
            i += 1;
        }
        if hits.len() == 1 {
            Ok(hits[0])
        } else {
            Err(Error::GoldNotFound(hits.len()))
        }
    }

    /// Locate the renown record by its current value: the reputation record
    /// `20 89 c8 9b dd 02 22 <len> 08 <id1> 10 <value> 28 bb 0d` whose
    /// `value == current_value`. Exactly one match is required; if two
    /// records share the value the search refuses rather than guess.
    pub fn find_renown(&self, current_value: u64) -> (res: Result<RenownLoc, Error>)
        ensures
            renown_candidates(self.decompressed@, current_value).len() == 1 ==> res == Ok::<
                RenownLoc,
                Error,
            >(renown_candidates(self.decompressed@, current_value)[0]),
            renown_candidates(self.decompressed@, current_value).len() != 1 ==> (res matches Err(
                Error::RenownNotFound(n),
            ) && n == renown_candidates(self.decompressed@, current_value).len()),
    {
        let d = self.decompressed.as_slice();
        let mut hits: Vec<RenownLoc> = Vec::new();
        let mut i: usize = 0;
        while i < d.len()
            invariant
                d@ == self.decompressed@,
                i <= d@.len(),
                hits@ == renown_hits(d@, current_value, i as nat),
                hits@.len() <= i,
            decreases d@.len() - i,
        {
            match renown_record(d, i, current_value) {
                Some(r) => hits.push(r),
                None => {},
            }
            i += 1;
        }
        if hits.len() == 1 {
            Ok(hits[0])
        } else {
            Err(Error::RenownNotFound(hits.len()))
        }
    }
}

} // verus!
