//! Editing gold and renown: locate the field, splice the new value into the
//! payload, rebuild the container, and check the result by reloading it.

use vstd::prelude::*;
use crate::edit::{PlanFailure, edit_views, lemma_edit_reads_back, lemma_plan_ordered, reports_plan, spec_plan, splice, spliced};
use crate::error::Error;
use crate::oodle::{DecodedBlock, DecodedView, copy_blocks, decoded_views, same_block};
use crate::locate::{GoldLoc, RenownLoc, gold_candidates, gold_hits, gold_record_at, renown_candidates, renown_hits, renown_record_at};
use crate::rebuild::{RebuildFailure, reports_rebuild};
use crate::save::{SaveFile, load_failure, reports, spec_scan};
use crate::text::{decimal_chars, decimal_string, join2};
use crate::varint::{encode_varint, lemma_read_varint_bounds, spec_read_varint, varint_encode};

verus! {

/// Why an edit could not be made.
pub ghost enum EditFailure {
    Plan(PlanFailure),
    Rebuild(RebuildFailure),
}

/// The error `e` reports the edit failure `f`.
pub open spec fn reports_edit(e: Error, f: EditFailure) -> bool {
    match f {
        EditFailure::Plan(p) => reports_plan(e, p),
        EditFailure::Rebuild(r) => reports_rebuild(e, r),
    }
}

/// The decompressed payload of a file that reads without error.
pub open spec fn reloaded_payload(raw: Seq<u8>, t: Seq<DecodedView>) -> Seq<u8> {
    spec_scan(raw, t)->Ok_0.data
}

/// The text of the error raised when a rewritten gold value reads back wrong.
pub open spec fn gold_mismatch_message(read: u64, expected: u64) -> Seq<char> {
    "post-write verify read "@ + decimal_chars(read as nat) + ", expected "@ + decimal_chars(
        expected as nat,
    )
}

/// A located varint field that can be rewritten: its tag byte is right
/// before it, and it lies inside the payload.
pub open spec fn editable_field(d: Seq<u8>, value_off: int, byte_len: int) -> bool {
    &&& 1 <= value_off
    &&& 1 <= byte_len <= 10
    &&& value_off + byte_len <= d.len()
}

pub(crate) proof fn lemma_gold_hits_editable(d: Seq<u8>, n: nat)
    requires
        d.len() <= usize::MAX,
    ensures
        forall|k: int|
            0 <= k < gold_hits(d, n).len() ==> {
                let g = #[trigger] gold_hits(d, n)[k];
                &&& g.value_off == g.tag_off + 1
                &&& editable_field(d, g.value_off as int, g.byte_len as int)
            },
    decreases n,
{
    if n > 0 {
        lemma_gold_hits_editable(d, (n - 1) as nat);
        let i = n - 1;
        if let Some(g) = gold_record_at(d, i) {
            let (id_len, id_start, _) = spec_read_varint(d, i + 1)->Some_0;
            let tag_off = id_start + id_len;
            lemma_read_varint_bounds(d, tag_off + 1);
        }
        let prev = gold_hits(d, (n - 1) as nat);
        assert forall|k: int| 0 <= k < gold_hits(d, n).len() implies {
            let g = #[trigger] gold_hits(d, n)[k];
            &&& g.value_off == g.tag_off + 1
            &&& editable_field(d, g.value_off as int, g.byte_len as int)
        } by {
            if k < prev.len() {
                assert(gold_hits(d, n)[k] == prev[k]);
            }
        }
    }
}

pub(crate) proof fn lemma_renown_hits_editable(d: Seq<u8>, current: u64, n: nat)
    requires
        d.len() <= usize::MAX,
    ensures
        forall|k: int|
            0 <= k < renown_hits(d, current, n).len() ==> {
                let r = #[trigger] renown_hits(d, current, n)[k];
                &&& r.value == current
                &&& editable_field(d, r.value_off as int, r.byte_len as int)
                &&& d[r.value_off - 1] == 0x10u8
            },
    decreases n,
{
    if n > 0 {
        lemma_renown_hits_editable(d, current, (n - 1) as nat);
        let i = n - 1;
        if let Some(r) = renown_record_at(d, i, current) {
            let (sublen, sub_start, _) = spec_read_varint(d, i + 7)->Some_0;
            let (_, after_id1, _) = spec_read_varint(d, sub_start + 1)->Some_0;
            lemma_read_varint_bounds(d, after_id1 + 1);
        }
        let prev = renown_hits(d, current, (n - 1) as nat);
        assert forall|k: int| 0 <= k < renown_hits(d, current, n).len() implies {
            let r = #[trigger] renown_hits(d, current, n)[k];
            &&& r.value == current
            &&& editable_field(d, r.value_off as int, r.byte_len as int)
            &&& d[r.value_off - 1] == 0x10u8
        } by {
            if k < prev.len() {
                assert(renown_hits(d, current, n)[k] == prev[k]);
            }
        }
    }
}

impl SaveFile {
    /// The file and payload after putting `new_bytes` in place of the
    /// `byte_len`-byte varint at `value_off`, whose tag byte is at `target`.
    pub open spec fn spec_edit(&self, target: int, value_off: int, byte_len: int, new_bytes: Seq<u8>) -> Result<
        (Seq<u8>, Seq<u8>),
        EditFailure,
    > {
        let d = self.decompressed@;
        match spec_plan(d, target, value_off, byte_len, new_bytes) {
            Err(f) => Err(EditFailure::Plan(f)),
            Ok(es) => {
                let nd = spliced(d, es, 0);
                match self.spec_rebuild(nd, es) {
                    Err(r) => Err(EditFailure::Rebuild(r)),
                    Ok(out) => Ok((out, nd)),
                }
            },
        }
    }

    /// Rewrite one varint field: plan the edits, splice them into the
    /// payload, and rebuild the file. Returns the file and the new payload.
    fn apply_edit(&self, target: usize, value_off: usize, byte_len: usize, new_bytes: Vec<u8>) -> (res: Result<(Vec<u8>, Vec<u8>), Error>)
        requires
            self.wf(),
            value_off == target + 1,
            editable_field(self.decompressed@, value_off as int, byte_len as int),
            1 <= new_bytes@.len() <= 10,
        ensures
            match self.spec_edit(target as int, value_off as int, byte_len as int, new_bytes@) {
                Ok((out, nd)) => res matches Ok((o, n)) && o@ == out && n@ == nd,
                Err(f) => res matches Err(e) && reports_edit(e, f),
            },
    {
        let ghost d = self.decompressed@;
        let dlen = self.decompressed.len();
        let ghost nb = new_bytes@;
        let edits = match self.plan_edits(target, value_off, byte_len, new_bytes) {
            Err(e) => return Err(e),
            Ok(v) => v,
        };
        proof {
            lemma_plan_ordered(d, target as int, value_off as int, byte_len as int, nb);
            let es = edit_views(edits@);
            assert(es.last().old_len == byte_len);
        }
        let nd = splice(self.decompressed.as_slice(), &edits);
        let out = match self.rebuild(&nd, &edits) {
            Err(e) => return Err(e),
            Ok(o) => o,
        };
        Ok((out, nd))
    }

    /// Produce a new save (raw bytes) with gold set to `new_value`. Does not
    /// write to disk. The result is reloaded and must read back `new_value`.
    pub fn with_gold(&self, new_value: u64) -> (res: Result<Vec<u8>, Error>)
        requires
            self.wf(),
        ensures
            ({
                let cands = gold_candidates(self.decompressed@);
                if cands.len() != 1 {
                    res matches Err(Error::GoldNotFound(n)) && n == cands.len()
                } else {
                    let g = cands[0];
                    match self.spec_edit(
                        g.tag_off as int,
                        g.value_off as int,
                        g.byte_len as int,
                        varint_encode(new_value as nat),
                    ) {
                        Err(f) => res matches Err(e) && reports_edit(e, f),
                        Ok((out, _)) => match load_failure(out, self.decoded()) {
                            Some(lf) => res matches Err(e) && reports(e, lf),
                            None => {
                                let back = gold_candidates(reloaded_payload(out, self.decoded()));
                                if back.len() != 1 {
                                    res matches Err(Error::GoldNotFound(n)) && n == back.len()
                                } else if back[0].value != new_value {
                                    res matches Err(Error::ParseError(m)) && m@
                                        == gold_mismatch_message(back[0].value, new_value)
                                } else {
                                    res matches Ok(o) && o@ == out
                                }
                            },
                        },
                    }
                }
            }),
            res matches Ok(o) ==> load_failure(o@, self.decoded()) is None && gold_candidates(
                reloaded_payload(o@, self.decoded()),
            ).len() == 1 && gold_candidates(reloaded_payload(o@, self.decoded()))[0].value == new_value,
    {
        let dlen = self.decompressed.len();
        let gold = match self.find_gold() {
            Err(e) => return Err(e),
            Ok(g) => g,
        };
        proof {
            lemma_gold_hits_editable(self.decompressed@, self.decompressed@.len());
            assert(gold == gold_candidates(self.decompressed@)[0]);
        }
        let new_bytes = encode_varint(new_value);
        let (out, _) = match self.apply_edit(gold.tag_off, gold.value_off, gold.byte_len, new_bytes) {
            Err(e) => return Err(e),
            Ok(r) => r,
        };
        verify(out, new_value, copy_blocks(&self.blocks))
    }

    /// Produce a new save (raw bytes) with renown changed from
    /// `current_value` to `new_value`; `current_value` locates the record.
    /// Does not write to disk. The result is reloaded and its payload must be
    /// exactly the edited one.
    pub fn with_renown(&self, current_value: u64, new_value: u64) -> (res: Result<Vec<u8>, Error>)
        requires
            self.wf(),
        ensures
            ({
                let cands = renown_candidates(self.decompressed@, current_value);
                if cands.len() != 1 {
                    res matches Err(Error::RenownNotFound(n)) && n == cands.len()
                } else {
                    let r = cands[0];
                    match self.spec_edit(
                        r.value_off - 1,
                        r.value_off as int,
                        r.byte_len as int,
                        varint_encode(new_value as nat),
                    ) {
                        Err(f) => res matches Err(e) && reports_edit(e, f),
                        Ok((out, nd)) => match load_failure(out, self.decoded()) {
                            Some(lf) => res matches Err(e) && reports(e, lf),
                            None => if reloaded_payload(out, self.decoded()) != nd {
                                res matches Err(Error::ParseError(m)) && m@
                                    == "post-write verify: reloaded payload differs from edit"@
                            } else {
                                res matches Ok(o) && o@ == out
                            },
                        },
                    }
                }
            }),
            res matches Ok(o) ==> {
                let r = renown_candidates(self.decompressed@, current_value)[0];
                let edit = self.spec_edit(
                    r.value_off - 1,
                    r.value_off as int,
                    r.byte_len as int,
                    varint_encode(new_value as nat),
                );
                &&& renown_candidates(self.decompressed@, current_value).len() == 1
                &&& edit matches Ok((out, nd)) && o@ == out && load_failure(out, self.decoded()) is None
                    && reloaded_payload(out, self.decoded()) == nd
            },
            res matches Ok(o) ==> {
                let d = self.decompressed@;
                let r = renown_candidates(d, current_value)[0];
                let enc = varint_encode(new_value as nat);
                let back = reloaded_payload(o@, self.decoded());
                let p = back.len() - (d.len() - (r.value_off + r.byte_len)) - enc.len();
                &&& 1 <= p
                &&& back[p - 1] == 0x10u8
                &&& spec_read_varint(back, p) == Some((new_value, (p + enc.len()) as usize, enc.len() as usize))
                &&& back.subrange(p + enc.len(), back.len() as int) == d.subrange(
                    r.value_off + r.byte_len,
                    d.len() as int,
                )
            },
    {
        let loc = match self.find_renown(current_value) {
            Err(e) => return Err(e),
            Ok(r) => r,
        };
        proof {
            lemma_renown_hits_editable(self.decompressed@, current_value, self.decompressed@.len());
            assert(loc == renown_candidates(self.decompressed@, current_value)[0]);
        }
        let new_bytes = encode_varint(new_value);
        let (out, nd) = match self.apply_edit(loc.value_off - 1, loc.value_off, loc.byte_len, new_bytes) {
            Err(e) => return Err(e),
            Ok(r) => r,
        };
        let res = verify_renown(out, nd.as_slice(), copy_blocks(&self.blocks));
        proof {
            if res is Ok {
                lemma_edit_reads_back(
                    self.decompressed@,
                    loc.value_off - 1,
                    loc.value_off as int,
                    loc.byte_len as int,
                    new_value,
                );
            }
        }
        res
    }
}

/// Reload a freshly built save from memory and confirm that its gold reads
/// `expected`; hands the bytes back when it does.
fn verify(bytes: Vec<u8>, expected: u64, blocks: Vec<DecodedBlock>) -> (res: Result<Vec<u8>, Error>)
    ensures
        match load_failure(bytes@, decoded_views(blocks@)) {
            Some(lf) => res matches Err(e) && reports(e, lf),
            None => {
                let back = gold_candidates(reloaded_payload(bytes@, decoded_views(blocks@)));
                if back.len() != 1 {
                    res matches Err(Error::GoldNotFound(n)) && n == back.len()
                } else if back[0].value != expected {
                    res matches Err(Error::ParseError(m)) && m@ == gold_mismatch_message(
                        back[0].value,
                        expected,
                    )
                } else {
                    res matches Ok(o) && o@ == bytes@
                }
            },
        },
{
    let reloaded = match SaveFile::load(bytes, blocks) {
        Err(e) => return Err(e),
        Ok(s) => s,
    };
    let back = match reloaded.find_gold() {
        Err(e) => return Err(e),
        Ok(g) => g,
    };
    if back.value != expected {
        let msg = join2(
            join2("post-write verify read ", decimal_string(back.value).as_str()).as_str(),
            join2(", expected ", decimal_string(expected).as_str()).as_str(),
        );
        proof {
            assert(msg@ =~= gold_mismatch_message(back.value, expected));
        }
        return Err(Error::ParseError(msg));
    }
    Ok(reloaded.raw)
}

/// Reload a freshly built save from memory and confirm that its payload is
/// exactly `expected`; hands the bytes back when it is.
fn verify_renown(bytes: Vec<u8>, expected: &[u8], blocks: Vec<DecodedBlock>) -> (res: Result<Vec<u8>, Error>)
    ensures
        match load_failure(bytes@, decoded_views(blocks@)) {
            Some(lf) => res matches Err(e) && reports(e, lf),
            None => if reloaded_payload(bytes@, decoded_views(blocks@)) != expected@ {
                res matches Err(Error::ParseError(m)) && m@
                    == "post-write verify: reloaded payload differs from edit"@
            } else {
                res matches Ok(o) && o@ == bytes@
            },
        },
{
    let reloaded = match SaveFile::load(bytes, blocks) {
        Err(e) => return Err(e),
        Ok(s) => s,
    };
    if !same_block(reloaded.decompressed.as_slice(), expected) {
        return Err(Error::ParseError(String::from_str("post-write verify: reloaded payload differs from edit")));
    }
    Ok(reloaded.raw)
}

} // verus!
