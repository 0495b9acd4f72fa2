//! Re-emitting the save container around an edited payload.

use vstd::prelude::*;
use vstd::arithmetic::power2::pow2;
use crate::bytes::{le_bytes, le_value, lemma_le_bytes_len, lemma_le_value_of_bytes, lemma_le_value_overwrite_outside, lemma_overwrite_at, overwrite};
use crate::edit::{Edit, EditSpec, edit_views, edits_ordered};
use crate::error::Error;
use crate::save::{BLOCK, SaveFile, chunk_count, declared_comp_sum, declared_uncomp_sum, entry_comp, entry_uncomp};

verus! {

/// The largest end offset of the edits.
pub open spec fn max_end(es: Seq<EditSpec>) -> int
    decreases es.len(),
{
    if es.len() == 0 {
        0
    } else {
        let m = max_end(es.drop_last());
        let e = es.last().off + es.last().old_len;
        if e > m {
            e
        } else {
            m
        }
    }
}

/// `s` with the 24-bit compressed and uncompressed sizes of the chunk table
/// entry at `b` replaced.
pub open spec fn patch_entry(s: Seq<u8>, b: int, comp: nat, uncomp: nat) -> Seq<u8> {
    overwrite(overwrite(s, b + 1, le_bytes(comp, 3)), b + 9, le_bytes(uncomp, 3))
}

/// Why the container cannot be rebuilt around the edited payload.
pub ghost enum RebuildFailure {
    /// The edited payload needs a different number of chunks.
    ChunkCountChanged,
    /// The re-emitted chunks do not fit the edited payload.
    RegionOutOfRange,
}

/// The error `e` reports the rebuild failure `f`.
pub open spec fn reports_rebuild(e: Error, f: RebuildFailure) -> bool {
    match f {
        RebuildFailure::ChunkCountChanged => e matches Error::TooLarge(m) && m@
            == "edit changes chunk count (near a block boundary)"@,
        RebuildFailure::RegionOutOfRange => e matches Error::TooLarge(m) && m@
            == "edited chunks do not fit the edited payload"@,
    }
}

impl SaveFile {
    /// Uncompressed size of chunk `i` after an edit that changes the payload
    /// length by `td`: the last touched chunk `c1` absorbs the whole change.
    pub open spec fn new_uncomp(&self, c1: int, td: int, i: int) -> int {
        self.chunks@[i].1 + if i == c1 {
            td
        } else {
            0
        }
    }

    /// Compressed size of chunk `i` after the edit: touched chunks
    /// `c0..=c1` are stored uncompressed (two header bytes + payload).
    pub open spec fn new_comp(&self, c0: int, c1: int, td: int, i: int) -> int {
        if c0 <= i <= c1 {
            self.new_uncomp(c1, td, i) + 2
        } else {
            self.chunks@[i].0 as int
        }
    }

    /// Payload offset where chunk `i` starts, by the sizes the chunk table
    /// declares.
    pub open spec fn chunk_start(&self, i: int) -> int {
        declared_uncomp_sum(self.raw@, self.table_off as int, i) as int
    }

    /// The chunk, searching from `i` on, whose declared range holds payload
    /// offset `off`: the last one that starts at or before `off`.
    pub open spec fn chunk_holding(&self, off: int, i: int) -> int
        decreases self.nchunks - i,
    {
        if 0 <= i && i + 1 < self.nchunks && self.chunk_start(i + 1) <= off {
            self.chunk_holding(off, i + 1)
        } else {
            i
        }
    }

    /// Offset in the edited payload where touched chunk `i` starts.
    pub open spec fn region_at(&self, c0: int, c1: int, td: int, i: int) -> int
        decreases i - c0,
    {
        if i <= c0 {
            self.chunk_start(c0)
        } else {
            self.region_at(c0, c1, td, i - 1) + self.new_uncomp(c1, td, i - 1)
        }
    }

    /// The stored bytes of chunk `i` after the edit: touched chunks become
    /// `CC 06` followed by their part of the edited payload; the others are
    /// copied from the file as loaded.
    pub open spec fn new_chunk_bytes(&self, nd: Seq<u8>, c0: int, c1: int, td: int, i: int) -> Seq<
        u8,
    > {
        if c0 <= i <= c1 {
            let start = self.region_at(c0, c1, td, i);
            seq![0xccu8, 0x06u8] + nd.subrange(start, start + self.new_uncomp(c1, td, i))
        } else {
            let c = self.chunks@[i];
            self.raw@.subrange(c.2 as int, c.2 + c.0)
        }
    }

    /// The stored bytes of the first `k` chunks after the edit.
    pub open spec fn new_chunks(&self, nd: Seq<u8>, c0: int, c1: int, td: int, k: int) -> Seq<u8>
        decreases k,
    {
        if k <= 0 {
            Seq::empty()
        } else {
            self.new_chunks(nd, c0, c1, td, k - 1) + self.new_chunk_bytes(nd, c0, c1, td, k - 1)
        }
    }

    /// The header and chunk table with the entries of chunks `c0..k` updated.
    pub open spec fn new_table(&self, c0: int, c1: int, td: int, k: int) -> Seq<u8>
        decreases k - c0,
    {
        if k <= c0 {
            self.raw@.subrange(0, self.data_start as int)
        } else {
            patch_entry(
                self.new_table(c0, c1, td, k - 1),
                self.table_off + 16 * (k - 1),
                self.new_comp(c0, c1, td, k - 1) as nat,
                self.new_uncomp(c1, td, k - 1) as nat,
            )
        }
    }

    /// Sum of the compressed sizes of the first `k` chunks after the edit.
    pub open spec fn new_comp_sum(&self, c0: int, c1: int, td: int, k: int) -> int
        decreases k,
    {
        if k <= 0 {
            0
        } else {
            self.new_comp_sum(c0, c1, td, k - 1) + self.new_comp(c0, c1, td, k - 1)
        }
    }

    /// The rebuilt file for the edited payload `nd`, where the edits touch
    /// chunks `c0..=c1`: header and table (touched entries updated), then
    /// every chunk, then the total uncompressed size (u64 at 0x18 and u32
    /// copy) and Summary.CompressedSize (u32) rewritten.
    pub open spec fn rebuilt(&self, nd: Seq<u8>, c0: int, c1: int) -> Seq<u8> {
        let td = nd.len() - self.decompressed@.len();
        let new_total = (self.total + td) as nat;
        let body = self.new_table(c0, c1, td, c1 + 1) + self.new_chunks(
            nd,
            c0,
            c1,
            td,
            self.nchunks as int,
        );
        overwrite(
            overwrite(
                overwrite(body, 0x18, le_bytes(new_total, 8)),
                self.totalcopy_off as int,
                le_bytes(new_total, 4),
            ),
            self.summary_off as int,
            le_bytes((self.new_comp_sum(c0, c1, td, self.nchunks as int) % 0x1_0000_0000) as nat, 4),
        )
    }

    /// The file holding the edited payload `nd` produced by the edits `es`,
    /// or why it cannot be built. The chunks from the one holding the first
    /// edit to the one holding the last edited byte (by the chunk sizes the
    /// table declares) are re-emitted
    /// uncompressed; all other chunks are copied as they are.
    pub open spec fn spec_rebuild(&self, nd: Seq<u8>, es: Seq<EditSpec>) -> Result<Seq<u8>, RebuildFailure> {
        let td = nd.len() - self.decompressed@.len();
        let new_total = self.total + td;
        let c0 = self.chunk_holding(es[0].off, 0);
        let c1 = self.chunk_holding(max_end(es) - 1, 0);
        if chunk_count(new_total as nat) != self.nchunks {
            Err(RebuildFailure::ChunkCountChanged)
        } else if self.new_uncomp(c1, td, c1) < 0 || self.region_at(c0, c1, td, c1 + 1) > nd.len() {
            Err(RebuildFailure::RegionOutOfRange)
        } else {
            Ok(self.rebuilt(nd, c0, c1))
        }
    }
}

/// Write the `n` little-endian bytes of `v` at `off`.
fn write_le(out: &mut Vec<u8>, off: usize, v: u128, n: usize)
    requires
        off + n <= old(out)@.len(),
    ensures
        final(out)@ == overwrite(old(out)@, off as int, le_bytes(v as nat, n as nat)),
        final(out)@.len() == old(out)@.len(),
    decreases n,
{
    let ghost s0 = out@;
    let len = out.len();
    proof {
        crate::bytes::lemma_le_bytes_len(v as nat, n as nat);
    }
    if n == 0 {
        proof {
            assert(out@ =~= overwrite(s0, off as int, le_bytes(v as nat, 0)));
        }
        return ;
    }
    out[off] = (v % 256) as u8;
    let ghost s1 = out@;
    write_le(out, off + 1, v / 256, n - 1);
    proof {
        let rest = le_bytes((v / 256) as nat, (n - 1) as nat);
        crate::bytes::lemma_le_bytes_len((v / 256) as nat, (n - 1) as nat);
        assert(le_bytes(v as nat, n as nat) == seq![(v % 256) as u8] + rest);
        assert(out@ =~= overwrite(s0, off as int, le_bytes(v as nat, n as nat)));
    }
}

/// Copy `src[from..to]` to the end of `out`.
fn append_range(out: &mut Vec<u8>, src: &[u8], from: usize, to: usize)
    requires
        from <= to <= src@.len(),
    ensures
        final(out)@ == old(out)@ + src@.subrange(from as int, to as int),
{
    let mut j = from;
    while j < to
        invariant
            from <= j <= to <= src@.len(),
            out@ == old(out)@ + src@.subrange(from as int, j as int),
        decreases to - j,
    {
        out.push(src[j]);
        j += 1;
        proof {
            assert(src@.subrange(from as int, j as int) =~= src@.subrange(from as int, j - 1).push(
                src@[j - 1],
            ));
        }
    }
}

proof fn lemma_max_end_step(es: Seq<EditSpec>, k: int)
    requires
        0 < k <= es.len(),
    ensures
        ({
            let m = max_end(es.take(k - 1));
            let e = es[k - 1].off + es[k - 1].old_len;
            max_end(es.take(k)) == if e > m {
                e
            } else {
                m
            }
        }),
{
    assert(es.take(k).drop_last() =~= es.take(k - 1));
}

pub(crate) proof fn lemma_max_end_ordered(es: Seq<EditSpec>, lo: int, hi: int)
    requires
        es.len() > 0,
        0 <= lo,
        edits_ordered(es, lo, hi),
    ensures
        max_end(es) == es.last().off + es.last().old_len,
    decreases es.len(),
{
    if es.len() > 1 {
        let p = es.drop_last();
        assert(edits_ordered(p, lo, es.last().off)) by {
            assert forall|k: int| 0 <= k < p.len() - 1 implies #[trigger] p[k].off + p[k].old_len
                <= p[k + 1].off by {
                assert(p[k] == es[k] && p[k + 1] == es[k + 1]);
            }
            assert forall|k: int| 0 <= k < p.len() implies 0 <= (#[trigger] p[k]).old_len by {
                assert(p[k] == es[k]);
            }
            assert(p.last() == es[es.len() - 2]);
            assert(p[0] == es[0]);
        }
        lemma_max_end_ordered(p, lo, es.last().off);
        assert(0 <= es.last().old_len);
        assert(p.last() == es[es.len() - 2]);
        assert(es[es.len() - 2].off + es[es.len() - 2].old_len <= es[es.len() - 1].off);
        assert(es.last() == es[es.len() - 1]);
        let m = max_end(p);
        let e = es.last().off + es.last().old_len;
        assert(m <= e);
        assert(max_end(es) == if e > m { e } else { m });
    } else {
        assert(es.drop_last() =~= Seq::<EditSpec>::empty());
        assert(0 <= es[0].old_len);
        assert(lo <= es[0].off);
        assert(max_end(es.drop_last()) == 0);
    }
}

/// The first edited offset and the end of the last edited byte range.
fn edit_span(edits: &Vec<Edit>, dlen: usize) -> (span: (usize, usize))
    requires
        edits@.len() > 0,
        edits_ordered(edit_views(edits@), 0, dlen as int),
        edit_views(edits@).last().old_len >= 1,
    ensures
        span.0 == edit_views(edits@)[0].off,
        span.1 == max_end(edit_views(edits@)),
        span.0 < span.1 <= dlen,
{
    let ghost es = edit_views(edits@);
    let emin = edits[0].off;
    let mut emax: usize = 0;
    let mut k: usize = 0;
    proof {
        assert(es.take(0) =~= Seq::<EditSpec>::empty());
    }
    while k < edits.len()
        invariant
            es == edit_views(edits@),
            edits_ordered(es, 0, dlen as int),
            k <= es.len(),
            emax == max_end(es.take(k as int)),
            emax <= dlen,
        decreases es.len() - k,
    {
        proof {
            lemma_max_end_step(es, k + 1);
            assert(es[k as int] == edits@[k as int]@);
            crate::edit::lemma_ordered_upper(es, 0, dlen as int, k as int);
        }
        let end = edits[k].off + edits[k].old_len;
        if end > emax {
            emax = end;
        }
        k += 1;
    }
    proof {
        assert(es.take(es.len() as int) =~= es);
        lemma_max_end_ordered(es, 0, dlen as int);
        assert(es[0].off <= es.last().off) by {
            if es.len() > 1 {
                crate::edit::lemma_ordered_lower(es, es[0].off, dlen as int, es.len() - 1);
            }
        }
        assert(es[0] == edits@[0]@);
    }
    (emin, emax)
}

/// Number of chunks for `n` payload bytes.
fn chunks_for(n: usize) -> (count: usize)
    ensures
        count == chunk_count(n as nat),
{
    let count = n / BLOCK + if n % BLOCK != 0 {
        1
    } else {
        0
    };
    assert(count == chunk_count(n as nat)) by (nonlinear_arith)
        requires
            count == n / BLOCK + if n % BLOCK != 0 {
                1int
            } else {
                0int
            },
            BLOCK == 131072,
    ;
    count
}

impl SaveFile {
    pub(crate) proof fn lemma_region_monotone(&self, c0: int, c1: int, td: int, i: int, j: int)
        requires
            c0 <= i <= j <= c1 + 1,
            c1 < self.chunks@.len(),
            self.new_uncomp(c1, td, c1) >= 0,
        ensures
            self.region_at(c0, c1, td, i) <= self.region_at(c0, c1, td, j),
        decreases j - i,
    {
        if i < j {
            self.lemma_region_monotone(c0, c1, td, i, j - 1);
        }
    }

    /// The chunk holding an offset inside the payload starts at or before it
    /// and ends after it.
    pub proof fn lemma_chunk_holding(&self, off: int, i: int)
        requires
            self.wf(),
            0 <= i < self.nchunks,
            self.chunk_start(i) <= off < self.total,
        ensures
            i <= self.chunk_holding(off, i) < self.nchunks,
            self.chunk_start(self.chunk_holding(off, i)) <= off,
            off < self.chunk_start(self.chunk_holding(off, i) + 1),
        decreases self.nchunks - i,
    {
        if i + 1 < self.nchunks && self.chunk_start(i + 1) <= off {
            self.lemma_chunk_holding(off, i + 1);
        }
    }

    /// A later offset is held by the same chunk or a later one.
    pub proof fn lemma_chunk_holding_mono(&self, a: int, b: int, i: int)
        requires
            a <= b,
            0 <= i,
        ensures
            self.chunk_holding(a, i) <= self.chunk_holding(b, i),
        decreases self.nchunks - i,
    {
        if i + 1 < self.nchunks && self.chunk_start(i + 1) <= a {
            self.lemma_chunk_holding_mono(a, b, i + 1);
        } else if i + 1 < self.nchunks && self.chunk_start(i + 1) <= b {
            self.lemma_chunk_holding_ge(b, i + 1);
        }
    }

    proof fn lemma_chunk_holding_ge(&self, off: int, i: int)
        requires
            0 <= i,
        ensures
            i <= self.chunk_holding(off, i),
        decreases self.nchunks - i,
    {
        if i + 1 < self.nchunks && self.chunk_start(i + 1) <= off {
            self.lemma_chunk_holding_ge(off, i + 1);
        }
    }

    /// The chunk holding payload offset `off`, and where it starts.
    fn chunk_of(&self, off: usize) -> (r: (usize, usize))
        requires
            self.wf(),
            off < self.total,
        ensures
            r.0 == self.chunk_holding(off as int, 0),
            r.1 == self.chunk_start(r.0 as int),
            r.0 < self.nchunks,
            r.1 <= off,
    {
        let n = self.nchunks;
        let ghost to = self.table_off as int;
        let mut i: usize = 0;
        let mut start: usize = 0;
        proof {
            self.lemma_chunk_holding(off as int, 0);
        }
        while i + 1 < n && start + self.chunks[i].1 <= off
            invariant
                self.wf(),
                n == self.nchunks,
                to == self.table_off,
                i < n,
                start == self.chunk_start(i as int),
                start <= off < self.total,
                self.chunk_holding(off as int, 0) == self.chunk_holding(off as int, i as int),
            decreases n - i,
        {
            proof {
                assert(self.chunks@[i as int].1 == entry_uncomp(self.raw@, to, i as int));
                crate::save::lemma_uncomp_sum_mono(self.raw@, to, i + 1, n as int);
            }
            start = start + self.chunks[i].1;
            i = i + 1;
        }
        proof {
            if i + 1 < n {
                assert(self.chunks@[i as int].1 == entry_uncomp(self.raw@, to, i as int));
            }
        }
        (i, start)
    }

    /// Whether the touched chunks `c0..=c1`, at their new sizes, fit inside
    /// an edited payload of `nd_len` bytes.
    fn region_fits(&self, nd_len: usize, c0: usize, c1: usize, start0: usize, nu_c1: u128, Ghost(td): Ghost<int>) -> (fits: bool)
        requires
            self.wf(),
            start0 == self.chunk_start(c0 as int),
            start0 <= 0x4000_0000,
            nu_c1 <= 0x4_0000_0000_0000_0000,
            c0 <= c1 < self.nchunks,
            nu_c1 == self.new_uncomp(c1 as int, td, c1 as int),
        ensures
            fits == (self.region_at(c0 as int, c1 as int, td, c1 + 1) <= nd_len),
    {
        let mut region_end: u128 = start0 as u128;
        let mut i = c0;
        while i <= c1
            invariant
                self.wf(),
                c0 <= i <= c1 + 1,
                c1 < self.nchunks,
                nu_c1 == self.new_uncomp(c1 as int, td, c1 as int),
                nu_c1 <= 0x4_0000_0000_0000_0000,
                region_end == self.region_at(c0 as int, c1 as int, td, i as int),
                region_end <= 0xffff_ffff_ffff_ffff,
                i > c0 ==> region_end <= nd_len,
            decreases c1 + 1 - i,
        {
            let nu: u128 = if i == c1 {
                nu_c1
            } else {
                self.chunks[i].1 as u128
            };
            if region_end + nu > nd_len as u128 {
                proof {
                    self.lemma_region_monotone(c0 as int, c1 as int, td, i + 1, c1 + 1);
                }
                return false;
            }
            region_end = region_end + nu;
            i += 1;
        }
        true
    }

    /// The header and chunk table with the entries of the touched chunks
    /// `c0..=c1` holding their new sizes.
    fn build_table(&self, c0: usize, c1: usize, nu_c1: usize, Ghost(td): Ghost<int>) -> (out: Vec<u8>)
        requires
            self.wf(),
            c0 <= c1 < self.nchunks,
            nu_c1 == self.new_uncomp(c1 as int, td, c1 as int),
        ensures
            out@ == self.new_table(c0 as int, c1 as int, td, c1 + 1),
            out@.len() == self.data_start,
    {
        let mut out: Vec<u8> = Vec::new();
        append_range(&mut out, self.raw.as_slice(), 0, self.data_start);
        proof {
            assert(out@ =~= self.raw@.subrange(0, self.data_start as int));
        }
        let mut i = c0;
        while i <= c1
            invariant
                self.wf(),
                c0 <= i <= c1 + 1,
                c1 < self.nchunks,
                nu_c1 == self.new_uncomp(c1 as int, td, c1 as int),
                out@ == self.new_table(c0 as int, c1 as int, td, i as int),
                out@.len() == self.data_start,
            decreases c1 + 1 - i,
        {
            let uncomp: u128 = if i == c1 {
                nu_c1 as u128
            } else {
                self.chunks[i].1 as u128
            };
            let b = self.table_off + 16 * i;
            write_le(&mut out, b + 1, uncomp + 2, 3);
            write_le(&mut out, b + 9, uncomp, 3);
            i += 1;
        }
        out
    }

    /// Append the stored bytes of every chunk after the edit; returns the
    /// sum of their compressed sizes modulo 2^32.
    #[verifier::rlimit(40)]
    fn append_chunks(&self, out: &mut Vec<u8>, nd: &Vec<u8>, c0: usize, c1: usize, start0: usize, nu_c1: usize, Ghost(td): Ghost<int>) -> (sum: u64)
        requires
            self.wf(),
            start0 == self.chunk_start(c0 as int),
            c0 <= c1 < self.nchunks,
            nu_c1 == self.new_uncomp(c1 as int, td, c1 as int),
            self.region_at(c0 as int, c1 as int, td, c1 + 1) <= nd@.len(),
        ensures
            final(out)@ == old(out)@ + self.new_chunks(nd@, c0 as int, c1 as int, td, self.nchunks as int),
            sum == self.new_comp_sum(c0 as int, c1 as int, td, self.nchunks as int) % 0x1_0000_0000,
    {
        let ghost start = out@;
        let ndl = nd.len();
        let rawlen = self.raw.len();
        let mut nd_pos: usize = start0;
        let mut sum: u64 = 0;
        let mut i: usize = 0;
        proof {
            assert(start + self.new_chunks(nd@, c0 as int, c1 as int, td, 0) =~= start);
        }
        while i < self.nchunks
            invariant
                self.wf(),
                ndl == nd@.len(),
                rawlen == self.raw@.len(),
                i <= self.nchunks,
                c0 <= c1 < self.nchunks,
                nu_c1 == self.new_uncomp(c1 as int, td, c1 as int),
                self.region_at(c0 as int, c1 as int, td, c1 + 1) <= nd@.len(),
                out@ == start + self.new_chunks(nd@, c0 as int, c1 as int, td, i as int),
                c0 <= i <= c1 + 1 ==> nd_pos == self.region_at(c0 as int, c1 as int, td, i as int),
                start0 == self.chunk_start(c0 as int),
                i < c0 ==> nd_pos == start0,
                sum == self.new_comp_sum(c0 as int, c1 as int, td, i as int) % 0x1_0000_0000,
            decreases self.nchunks - i,
        {
            let ghost before = out@;
            let comp: u128;
            if c0 <= i && i <= c1 {
                let uncomp: usize = if i == c1 {
                    nu_c1
                } else {
                    self.chunks[i].1
                };
                proof {
                    self.lemma_region_monotone(c0 as int, c1 as int, td, i as int, i + 1);
                    self.lemma_region_monotone(c0 as int, c1 as int, td, i + 1, c1 + 1);
                }
                out.push(0xcc);
                out.push(0x06);
                append_range(out, nd.as_slice(), nd_pos, nd_pos + uncomp);
                nd_pos = nd_pos + uncomp;
                comp = uncomp as u128 + 2;
                proof {
                    assert(out@ =~= before + self.new_chunk_bytes(nd@, c0 as int, c1 as int, td, i as int));
                }
            } else {
                let (c, _, pos) = self.chunks[i];
                proof {
                    assert(self.chunks@[i as int].2 + self.chunks@[i as int].0 <= self.raw@.len());
                }
                append_range(out, self.raw.as_slice(), pos, pos + c);
                comp = c as u128;
            }
            proof {
                assert(comp == self.new_comp(c0 as int, c1 as int, td, i as int));
                vstd::arithmetic::div_mod::lemma_add_mod_noop(
                    self.new_comp_sum(c0 as int, c1 as int, td, i as int),
                    comp as int,
                    0x1_0000_0000,
                );
                vstd::arithmetic::div_mod::lemma_mod_twice(comp as int, 0x1_0000_0000);
            }
            sum = (sum + (comp % 0x1_0000_0000) as u64) % 0x1_0000_0000;
            i += 1;
        }
        sum
    }

    /// Rebuild the file around the edited payload `nd` produced by `edits`.
    #[verifier::rlimit(40)]
    pub fn rebuild(&self, nd: &Vec<u8>, edits: &Vec<Edit>) -> (res: Result<Vec<u8>, Error>)
        requires
            self.wf(),
            edits@.len() > 0,
            edits_ordered(edit_views(edits@), 0, self.decompressed@.len() as int),
            edit_views(edits@).last().old_len >= 1,
        ensures
            match self.spec_rebuild(nd@, edit_views(edits@)) {
                Ok(out) => res matches Ok(v) && v@ == out,
                Err(f) => res matches Err(e) && reports_rebuild(e, f),
            },
    {
        let dlen = self.decompressed.len();
        let new_total = nd.len();
        let td: i128 = nd.len() as i128 - dlen as i128;
        let ghost tdi = td as int;
        let (emin, emax) = edit_span(edits, dlen);
        let (c0, start0) = self.chunk_of(emin);
        let (c1, _) = self.chunk_of(emax - 1);
        proof {
            self.lemma_chunk_holding_mono(emin as int, (emax - 1) as int, 0);
        }
        let count = chunks_for(new_total);
        if count != self.nchunks {
            return Err(Error::TooLarge(String::from_str("edit changes chunk count (near a block boundary)")));
        }
        let nu: i128 = self.chunks[c1].1 as i128 + td;
        if nu < 0 {
            return Err(Error::TooLarge(String::from_str("edited chunks do not fit the edited payload")));
        }
        assert(nu <= 0x4_0000_0000_0000_0000);
        if !self.region_fits(new_total, c0, c1, start0, nu as u128, Ghost(tdi)) {
            return Err(Error::TooLarge(String::from_str("edited chunks do not fit the edited payload")));
        }
        let nu_c1 = nu as usize;
        let mut out = self.build_table(c0, c1, nu_c1, Ghost(tdi));
        let sum = self.append_chunks(&mut out, nd, c0, c1, start0, nu_c1, Ghost(tdi));
        let ghost body = out@;
        write_le(&mut out, 0x18, new_total as u128, 8);
        write_le(&mut out, self.totalcopy_off, new_total as u128, 4);
        write_le(&mut out, self.summary_off, sum as u128, 4);
        proof {
            assert(body == self.new_table(c0 as int, c1 as int, tdi, c1 + 1) + self.new_chunks(
                nd@,
                c0 as int,
                c1 as int,
                tdi,
                self.nchunks as int,
            ));
            assert(out@ == self.rebuilt(nd@, c0 as int, c1 as int));
        }
        Ok(out)
    }
}

/// A little-endian number inside `s` reads the same with bytes appended.
proof fn lemma_le_value_prefix(s: Seq<u8>, t: Seq<u8>, q: int, n: nat)
    requires
        0 <= q,
        q + n <= s.len(),
    ensures
        le_value(s + t, q, n) == le_value(s, q, n),
    decreases n,
{
    if n > 0 {
        assert((s + t)[q] == s[q]);
        lemma_le_value_prefix(s, t, q + 1, (n - 1) as nat);
    }
}

impl SaveFile {
    proof fn lemma_new_table_entries(&self, c0: int, c1: int, td: int, k: int)
        requires
            self.wf(),
            0 <= c0 <= k <= c1 + 1,
            c1 < self.nchunks,
            forall|i: int|
                c0 <= i <= c1 ==> 0 <= #[trigger] self.new_uncomp(c1, td, i) && self.new_comp(
                    c0,
                    c1,
                    td,
                    i,
                ) < 0x100_0000,
        ensures
            self.new_table(c0, c1, td, k).len() == self.data_start,
            forall|i: int|
                0 <= i < self.nchunks ==> {
                    &&& #[trigger] entry_comp(self.new_table(c0, c1, td, k), self.table_off as int, i) == if c0 <= i < k {
                        self.new_comp(c0, c1, td, i)
                    } else {
                        self.chunks@[i].0 as int
                    }
                    &&& entry_uncomp(self.new_table(c0, c1, td, k), self.table_off as int, i) == if c0 <= i < k {
                        self.new_uncomp(c1, td, i)
                    } else {
                        self.chunks@[i].1 as int
                    }
                },
        decreases k - c0,
    {
        let to = self.table_off as int;
        if k <= c0 {
            let t = self.raw@.subrange(0, self.data_start as int);
            assert forall|i: int| 0 <= i < self.nchunks implies #[trigger] entry_comp(t, to, i)
                == entry_comp(self.raw@, to, i) && entry_uncomp(t, to, i) == entry_uncomp(
                self.raw@,
                to,
                i,
            ) by {
                lemma_le_value_prefix(t, self.raw@.subrange(self.data_start as int, self.raw@.len() as int), to + 16 * i + 1, 3);
                lemma_le_value_prefix(t, self.raw@.subrange(self.data_start as int, self.raw@.len() as int), to + 16 * i + 9, 3);
                assert(t + self.raw@.subrange(self.data_start as int, self.raw@.len() as int) =~= self.raw@);
            }
            assert forall|i: int| 0 <= i < self.nchunks implies #[trigger] self.chunks@[i].0
                == entry_comp(self.raw@, to, i) && self.chunks@[i].1 == entry_uncomp(self.raw@, to, i) by {}
        } else {
            self.lemma_new_table_entries(c0, c1, td, k - 1);
            let prev = self.new_table(c0, c1, td, k - 1);
            let b = to + 16 * (k - 1);
            let comp = self.new_comp(c0, c1, td, k - 1);
            let uncomp = self.new_uncomp(c1, td, k - 1);
            assert(0 <= uncomp && comp < 0x100_0000);
            let cb = le_bytes(comp as nat, 3);
            let ub = le_bytes(uncomp as nat, 3);
            lemma_le_bytes_len(comp as nat, 3);
            lemma_le_bytes_len(uncomp as nat, 3);
            let t1 = overwrite(prev, b + 1, cb);
            let t2 = overwrite(t1, b + 9, ub);
            assert(t2 == self.new_table(c0, c1, td, k));
            lemma_overwrite_at(prev, b + 1, cb);
            lemma_overwrite_at(t1, b + 9, ub);
            vstd::arithmetic::power2::lemma2_to64();
            assert forall|i: int| 0 <= i < self.nchunks implies {
                &&& #[trigger] entry_comp(t2, to, i) == if c0 <= i < k {
                    self.new_comp(c0, c1, td, i)
                } else {
                    self.chunks@[i].0 as int
                }
                &&& entry_uncomp(t2, to, i) == if c0 <= i < k {
                    self.new_uncomp(c1, td, i)
                } else {
                    self.chunks@[i].1 as int
                }
            } by {
                let q = to + 16 * i;
                assert(entry_comp(prev, to, i) == entry_comp(self.new_table(c0, c1, td, k - 1), to, i));
                assert(b + 12 <= self.data_start);
                assert(q + 12 <= self.data_start);
                assert(pow2(8 * 3nat) == 0x100_0000) by {
                    vstd::arithmetic::power2::lemma2_to64();
                }
                if i == k - 1 {
                    lemma_le_value_of_bytes(t1, b + 1, comp as nat, 3);
                    lemma_le_value_overwrite_outside(t1, b + 9, ub, b + 1, 3);
                    lemma_le_value_of_bytes(t2, b + 9, uncomp as nat, 3);
                    assert(q == b);
                    assert(le_value(t2, b + 1, 3) == comp);
                    assert(le_value(t2, b + 9, 3) == uncomp);
                } else {
                    lemma_le_value_overwrite_outside(prev, b + 1, cb, q + 1, 3);
                    lemma_le_value_overwrite_outside(t1, b + 9, ub, q + 1, 3);
                    lemma_le_value_overwrite_outside(prev, b + 1, cb, q + 9, 3);
                    lemma_le_value_overwrite_outside(t1, b + 9, ub, q + 9, 3);
                    assert(le_value(t2, q + 1, 3) == le_value(prev, q + 1, 3));
                    assert(le_value(t2, q + 9, 3) == le_value(prev, q + 9, 3));
                }
            }
        }
    }
}

impl SaveFile {
    proof fn lemma_comp_sum_entries(&self, out: Seq<u8>, c0: int, c1: int, td: int, k: int)
        requires
            0 <= k <= self.nchunks,
            forall|i: int|
                0 <= i < self.nchunks ==> #[trigger] entry_comp(out, self.table_off as int, i)
                    == self.new_comp(c0, c1, td, i),
        ensures
            declared_comp_sum(out, self.table_off as int, k) == self.new_comp_sum(c0, c1, td, k),
        decreases k,
    {
        if k > 0 {
            self.lemma_comp_sum_entries(out, c0, c1, td, k - 1);
            assert(entry_comp(out, self.table_off as int, k - 1) == self.new_comp(c0, c1, td, k - 1));
        }
    }

    proof fn lemma_uncomp_sum_entries(&self, out: Seq<u8>, c1: int, td: int, k: int)
        requires
            self.wf(),
            0 <= k <= self.nchunks,
            0 <= c1 < self.nchunks,
            forall|i: int|
                0 <= i < self.nchunks ==> #[trigger] entry_uncomp(out, self.table_off as int, i)
                    == self.new_uncomp(c1, td, i),
        ensures
            declared_uncomp_sum(out, self.table_off as int, k) == declared_uncomp_sum(
                self.raw@,
                self.table_off as int,
                k,
            ) + if k > c1 {
                td
            } else {
                0
            },
        decreases k,
    {
        if k > 0 {
            self.lemma_uncomp_sum_entries(out, c1, td, k - 1);
            assert(entry_uncomp(out, self.table_off as int, k - 1) == self.new_uncomp(c1, td, k - 1));
            assert(self.chunks@[k - 1].1 == entry_uncomp(self.raw@, self.table_off as int, k - 1));
        }
    }

    /// The rebuilt file keeps the container's bookkeeping consistent: the
    /// total uncompressed size in the header (u64 at 0x18, and its u32 copy)
    /// is the edited payload's length, the uncompressed sizes declared by the
    /// chunk table add up to it, each table entry declares its chunk's new
    /// sizes, and Summary.CompressedSize is the sum of the declared
    /// compressed sizes, modulo 2^32 (its width). It holds when the new sizes
    /// of the re-emitted chunks fit their 24-bit fields and the header fields
    /// lie apart (Summary.CompressedSize after 0x20).
    pub proof fn lemma_rebuilt_consistent(&self, nd: Seq<u8>, c0: int, c1: int)
        requires
            self.wf(),
            0x20 <= self.summary_off,
            0 <= c0 <= c1 < self.nchunks,
            chunk_count(nd.len()) == self.nchunks,
            forall|i: int|
                c0 <= i <= c1 ==> 0 <= #[trigger] self.new_uncomp(
                    c1,
                    nd.len() - self.decompressed@.len(),
                    i,
                ) && self.new_comp(c0, c1, nd.len() - self.decompressed@.len(), i) < 0x100_0000,
        ensures
            ({
                let out = self.rebuilt(nd, c0, c1);
                let td = nd.len() - self.decompressed@.len();
                let t = self.table_off as int;
                &&& le_value(out, 0x18, 8) == nd.len()
                &&& le_value(out, self.totalcopy_off as int, 4) == nd.len() % 0x1_0000_0000
                &&& declared_uncomp_sum(out, t, self.nchunks as int) == nd.len()
                &&& le_value(out, self.summary_off as int, 4) == declared_comp_sum(
                    out,
                    t,
                    self.nchunks as int,
                ) % 0x1_0000_0000
                &&& forall|i: int|
                    0 <= i < self.nchunks ==> #[trigger] entry_comp(out, t, i) == self.new_comp(
                        c0,
                        c1,
                        td,
                        i,
                    ) && entry_uncomp(out, t, i) == self.new_uncomp(c1, td, i)
            }),
    {
        let td = nd.len() - self.decompressed@.len();
        let to = self.table_off as int;
        let new_total = (self.total + td) as nat;
        assert(nd.len() == self.total + td);
        assert(0 < nd.len() <= 0x4000_0000) by {
            assert(self.nchunks <= 8192) by (nonlinear_arith)
                requires
                    self.nchunks == (self.total + 131071) / 131072,
                    self.total <= 0x4000_0000,
            ;
            assert(0 < nd.len() <= 0x4000_0000) by (nonlinear_arith)
                requires
                    self.nchunks == (nd.len() + 131071) / 131072,
                    self.nchunks <= 8192,
                    self.nchunks >= 1,
            ;
        }
        self.lemma_new_table_entries(c0, c1, td, c1 + 1);
        let tb = self.new_table(c0, c1, td, c1 + 1);
        let ch = self.new_chunks(nd, c0, c1, td, self.nchunks as int);
        let body = tb + ch;
        let a = le_bytes(new_total, 8);
        let b = le_bytes(new_total, 4);
        let sum = (self.new_comp_sum(c0, c1, td, self.nchunks as int) % 0x1_0000_0000) as nat;
        let c = le_bytes(sum, 4);
        lemma_le_bytes_len(new_total, 8);
        lemma_le_bytes_len(new_total, 4);
        lemma_le_bytes_len(sum, 4);
        let o1 = overwrite(body, 0x18, a);
        let o2 = overwrite(o1, self.totalcopy_off as int, b);
        let out = overwrite(o2, self.summary_off as int, c);
        assert(out == self.rebuilt(nd, c0, c1));
        assert(body.len() >= self.data_start);
        lemma_overwrite_at(body, 0x18, a);
        lemma_overwrite_at(o1, self.totalcopy_off as int, b);
        lemma_overwrite_at(o2, self.summary_off as int, c);
        assert(pow2(8 * 8nat) == 0x1_0000_0000_0000_0000nat && pow2(8 * 4nat) == 0x1_0000_0000nat) by {
            vstd::arithmetic::power2::lemma2_to64();
            vstd::arithmetic::power2::lemma2_to64_rest();
        }
        assert(le_value(out, 0x18, 8) == nd.len()) by {
            lemma_le_value_of_bytes(o1, 0x18, new_total, 8);
            lemma_le_value_overwrite_outside(o1, self.totalcopy_off as int, b, 0x18, 8);
            lemma_le_value_overwrite_outside(o2, self.summary_off as int, c, 0x18, 8);
        }
        assert(le_value(out, self.totalcopy_off as int, 4) == nd.len() % 0x1_0000_0000) by {
            lemma_le_value_of_bytes(o2, self.totalcopy_off as int, new_total, 4);
            lemma_le_value_overwrite_outside(o2, self.summary_off as int, c, self.totalcopy_off as int, 4);
        }
        assert(le_value(out, self.summary_off as int, 4) == sum) by {
            lemma_le_value_of_bytes(out, self.summary_off as int, sum, 4);
            vstd::arithmetic::div_mod::lemma_mod_twice(self.new_comp_sum(c0, c1, td, self.nchunks as int), 0x1_0000_0000);
        }
        // The table entries.
        assert forall|i: int| 0 <= i < self.nchunks implies #[trigger] entry_comp(out, to, i)
            == self.new_comp(c0, c1, td, i) && entry_uncomp(out, to, i) == self.new_uncomp(
            c1,
            td,
            i,
        ) by {
            let q = to + 16 * i;
            assert(q + 12 <= self.data_start);
            assert(entry_comp(tb, to, i) == entry_comp(self.new_table(c0, c1, td, c1 + 1), to, i));
            assert(self.chunks@[i].0 == entry_comp(self.raw@, to, i));
            lemma_le_value_prefix(tb, ch, q + 1, 3);
            lemma_le_value_prefix(tb, ch, q + 9, 3);
            lemma_le_value_overwrite_outside(body, 0x18, a, q + 1, 3);
            lemma_le_value_overwrite_outside(body, 0x18, a, q + 9, 3);
            lemma_le_value_overwrite_outside(o1, self.totalcopy_off as int, b, q + 1, 3);
            lemma_le_value_overwrite_outside(o1, self.totalcopy_off as int, b, q + 9, 3);
            lemma_le_value_overwrite_outside(o2, self.summary_off as int, c, q + 1, 3);
            lemma_le_value_overwrite_outside(o2, self.summary_off as int, c, q + 9, 3);
        }
        assert forall|i: int| 0 <= i < self.nchunks implies #[trigger] entry_uncomp(out, to, i)
            == self.new_uncomp(c1, td, i) by {
            assert(entry_comp(out, to, i) == self.new_comp(c0, c1, td, i));
        }
        self.lemma_comp_sum_entries(out, c0, c1, td, self.nchunks as int);
        self.lemma_uncomp_sum_entries(out, c1, td, self.nchunks as int);
    }
}

} // verus!
