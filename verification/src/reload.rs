//! Reading back a rebuilt file: for a save laid out in full blocks, the file
//! rebuilt around an edited payload loads and gives that payload back.

use vstd::prelude::*;
use crate::edit::{EditSpec, edits_ordered, last_gap_start, lemma_ordered_lower, lemma_plan_ordered, lemma_spliced_prefix, lemma_spliced_suffix, spec_plan, spliced};
use crate::rebuild::{lemma_max_end_ordered, max_end};
use crate::stats::{editable_field, reloaded_payload};
use crate::locate::{gold_candidates, gold_hits, renown_candidates, renown_hits};
use crate::varint::varint_encode;
use crate::bytes::{le_bytes, lemma_le_bytes_index, lemma_le_bytes_len, lemma_overwrite_at, overwrite};
use crate::save::{MAX_TOTAL, SEARCH_LIMIT, SaveFile, chunk_count, chunk_payload, container_tag, declared_uncomp_sum, entry_comp, entry_uncomp, find_tag_from, has_magic, header_total, lemma_uncomp_sum_mono, load_failure, scan_chunks, spec_data_start, spec_nchunks, spec_scan, spec_table_off, tag_at};
use vstd::arithmetic::power2::pow2;

verus! {

impl SaveFile {
    /// Payload offset where chunk `k` starts once the chunks have their new
    /// uncompressed sizes.
    pub open spec fn new_start(&self, c1: int, td: int, k: int) -> int
        decreases k,
    {
        if k <= 0 {
            0
        } else {
            self.new_start(c1, td, k - 1) + self.new_uncomp(c1, td, k - 1)
        }
    }

    proof fn lemma_new_start(&self, c1: int, td: int, k: int)
        requires
            self.wf(),
            0 <= k <= self.nchunks,
        ensures
            self.new_start(c1, td, k) == declared_uncomp_sum(self.raw@, self.table_off as int, k)
                + if 0 <= c1 < k {
                td
            } else {
                0
            },
        decreases k,
    {
        if k > 0 {
            self.lemma_new_start(c1, td, k - 1);
            assert(self.chunks@[k - 1].1 == crate::save::entry_uncomp(self.raw@, self.table_off as int, k - 1));
        }
    }

    proof fn lemma_region_is_start(&self, c0: int, c1: int, td: int, k: int)
        requires
            0 <= c0 <= k <= c1 + 1,
            self.new_start(c1, td, c0) == self.chunk_start(c0),
        ensures
            self.region_at(c0, c1, td, k) == self.new_start(c1, td, k),
        decreases k - c0,
    {
        if k > c0 {
            self.lemma_region_is_start(c0, c1, td, k - 1);
        }
    }
}

impl SaveFile {
    proof fn lemma_comp_sum_mono(&self, c0: int, c1: int, td: int, j: int, k: int)
        requires
            j <= k,
            forall|i: int| 0 <= i < k ==> 0 <= #[trigger] self.new_comp(c0, c1, td, i),
        ensures
            self.new_comp_sum(c0, c1, td, j) <= self.new_comp_sum(c0, c1, td, k),
        decreases k - j,
    {
        if j < k {
            self.lemma_comp_sum_mono(c0, c1, td, j, k - 1);
            if k > 0 {
                assert(0 <= self.new_comp(c0, c1, td, k - 1));
            }
        }
    }

    proof fn lemma_chunk_bytes_len(&self, nd: Seq<u8>, c0: int, c1: int, td: int, k: int)
        requires
            self.wf(),
            0 <= k < self.nchunks,
            0 <= c0 <= c1 < self.nchunks,
            self.new_uncomp(c1, td, c1) >= 0,
            self.region_at(c0, c1, td, c1 + 1) <= nd.len(),
        ensures
            self.new_chunk_bytes(nd, c0, c1, td, k).len() == self.new_comp(c0, c1, td, k),
            0 <= self.new_comp(c0, c1, td, k),
    {
        if c0 <= k <= c1 {
            self.lemma_region_monotone(c0, c1, td, c0, k);
            self.lemma_region_monotone(c0, c1, td, k + 1, c1 + 1);
            assert(self.region_at(c0, c1, td, c0) == self.chunk_start(c0));
        } else {
            let c = self.chunks@[k];
            assert(c.2 + c.0 <= self.raw@.len());
        }
    }

    proof fn lemma_new_chunks_layout(&self, nd: Seq<u8>, c0: int, c1: int, td: int, n: int)
        requires
            self.wf(),
            0 <= n <= self.nchunks,
            0 <= c0 <= c1 < self.nchunks,
            self.new_uncomp(c1, td, c1) >= 0,
            self.region_at(c0, c1, td, c1 + 1) <= nd.len(),
        ensures
            self.new_chunks(nd, c0, c1, td, n).len() == self.new_comp_sum(c0, c1, td, n),
            forall|k: int|
                0 <= k < n ==> #[trigger] self.new_chunks(nd, c0, c1, td, n).subrange(
                    self.new_comp_sum(c0, c1, td, k),
                    self.new_comp_sum(c0, c1, td, k + 1),
                ) == self.new_chunk_bytes(nd, c0, c1, td, k),
        decreases n,
    {
        if n > 0 {
            self.lemma_new_chunks_layout(nd, c0, c1, td, n - 1);
            self.lemma_chunk_bytes_len(nd, c0, c1, td, n - 1);
            let prev = self.new_chunks(nd, c0, c1, td, n - 1);
            let cur = self.new_chunks(nd, c0, c1, td, n);
            assert(cur == prev + self.new_chunk_bytes(nd, c0, c1, td, n - 1));
            assert forall|i: int| 0 <= i < n implies 0 <= #[trigger] self.new_comp(c0, c1, td, i) by {
                self.lemma_chunk_bytes_len(nd, c0, c1, td, i);
            }
            assert forall|k: int| 0 <= k < n implies #[trigger] cur.subrange(
                self.new_comp_sum(c0, c1, td, k),
                self.new_comp_sum(c0, c1, td, k + 1),
            ) == self.new_chunk_bytes(nd, c0, c1, td, k) by {
                self.lemma_comp_sum_mono(c0, c1, td, 0, k);
                if k < n - 1 {
                    self.lemma_comp_sum_mono(c0, c1, td, k + 1, n - 1);
                    self.lemma_comp_sum_mono(c0, c1, td, k, k + 1);
                    assert(prev.subrange(self.new_comp_sum(c0, c1, td, k), self.new_comp_sum(c0, c1, td, k + 1))
                        == self.new_chunk_bytes(nd, c0, c1, td, k));
                    assert(cur.subrange(self.new_comp_sum(c0, c1, td, k), self.new_comp_sum(c0, c1, td, k + 1))
                        =~= prev.subrange(self.new_comp_sum(c0, c1, td, k), self.new_comp_sum(c0, c1, td, k + 1)));
                } else {
                    assert(cur.subrange(self.new_comp_sum(c0, c1, td, k), self.new_comp_sum(c0, c1, td, k + 1))
                        =~= self.new_chunk_bytes(nd, c0, c1, td, k));
                }
            }
        }
    }

    proof fn lemma_new_table_header(&self, c0: int, c1: int, td: int, k: int)
        requires
            self.wf(),
            c0 <= k <= c1 + 1,
            c1 < self.nchunks,
            0 <= c0,
        ensures
            self.new_table(c0, c1, td, k).len() == self.data_start,
            forall|j: int|
                0 <= j < self.table_off ==> #[trigger] self.new_table(c0, c1, td, k)[j] == self.raw@[j],
        decreases k - c0,
    {
        if k > c0 {
            self.lemma_new_table_header(c0, c1, td, k - 1);
            let prev = self.new_table(c0, c1, td, k - 1);
            let b = self.table_off + 16 * (k - 1);
            let cb = crate::bytes::le_bytes(self.new_comp(c0, c1, td, k - 1) as nat, 3);
            let ub = crate::bytes::le_bytes(self.new_uncomp(c1, td, k - 1) as nat, 3);
            crate::bytes::lemma_le_bytes_len(self.new_comp(c0, c1, td, k - 1) as nat, 3);
            crate::bytes::lemma_le_bytes_len(self.new_uncomp(c1, td, k - 1) as nat, 3);
            let t1 = crate::bytes::overwrite(prev, b + 1, cb);
            crate::bytes::lemma_overwrite_at(prev, b + 1, cb);
            crate::bytes::lemma_overwrite_at(t1, b + 9, ub);
            assert(self.new_table(c0, c1, td, k) == crate::bytes::overwrite(t1, b + 9, ub));
            assert forall|j: int| 0 <= j < self.table_off implies #[trigger] self.new_table(c0, c1, td, k)[j]
                == self.raw@[j] by {
                assert(prev[j] == self.raw@[j]);
                assert(t1[j] == prev[j]);
            }
        }
    }
}

impl SaveFile {
    proof fn lemma_rebuilt_layout(&self, nd: Seq<u8>, c0: int, c1: int)
        requires
            self.wf(),
            0 <= c0 <= c1 < self.nchunks,
            self.new_uncomp(c1, nd.len() - self.decompressed@.len(), c1) >= 0,
            self.region_at(c0, c1, nd.len() - self.decompressed@.len(), c1 + 1) <= nd.len(),
        ensures
            ({
                let td = nd.len() - self.decompressed@.len();
                let out = self.rebuilt(nd, c0, c1);
                let ds = self.data_start as int;
                &&& out.len() == ds + self.new_comp_sum(c0, c1, td, self.nchunks as int)
                &&& forall|k: int|
                    0 <= k < self.nchunks ==> #[trigger] out.subrange(
                        ds + self.new_comp_sum(c0, c1, td, k),
                        ds + self.new_comp_sum(c0, c1, td, k + 1),
                    ) == self.new_chunk_bytes(nd, c0, c1, td, k)
                &&& forall|j: int|
                    0 <= j < self.table_off && !(0x18 <= j < 0x20) && !(self.summary_off <= j
                        < self.summary_off + 4) && !(self.totalcopy_off <= j < self.totalcopy_off
                        + 4) ==> #[trigger] out[j] == self.raw@[j]
                &&& forall|k: int| 0 <= k < self.nchunks ==> 0 <= #[trigger] self.new_comp(c0, c1, td, k)
            }),
    {
        let td = nd.len() - self.decompressed@.len();
        let ds = self.data_start as int;
        let n = self.nchunks as int;
        self.lemma_new_table_header(c0, c1, td, c1 + 1);
        self.lemma_new_chunks_layout(nd, c0, c1, td, n);
        let tb = self.new_table(c0, c1, td, c1 + 1);
        let ch = self.new_chunks(nd, c0, c1, td, n);
        let body = tb + ch;
        let new_total = (self.total + td) as nat;
        let a = crate::bytes::le_bytes(new_total, 8);
        let b = crate::bytes::le_bytes(new_total, 4);
        let sum = (self.new_comp_sum(c0, c1, td, n) % 0x1_0000_0000) as nat;
        let c = crate::bytes::le_bytes(sum, 4);
        crate::bytes::lemma_le_bytes_len(new_total, 8);
        crate::bytes::lemma_le_bytes_len(new_total, 4);
        crate::bytes::lemma_le_bytes_len(sum, 4);
        let o1 = crate::bytes::overwrite(body, 0x18, a);
        let o2 = crate::bytes::overwrite(o1, self.totalcopy_off as int, b);
        let out = crate::bytes::overwrite(o2, self.summary_off as int, c);
        assert(out == self.rebuilt(nd, c0, c1));
        crate::bytes::lemma_overwrite_at(body, 0x18, a);
        crate::bytes::lemma_overwrite_at(o1, self.totalcopy_off as int, b);
        crate::bytes::lemma_overwrite_at(o2, self.summary_off as int, c);
        assert forall|k: int| 0 <= k < n implies 0 <= #[trigger] self.new_comp(c0, c1, td, k) by {
            self.lemma_chunk_bytes_len(nd, c0, c1, td, k);
        }
        assert forall|j: int| ds <= j < out.len() implies #[trigger] out[j] == ch[j - ds] by {
            assert(o1[j] == body[j]);
            assert(o2[j] == o1[j]);
            assert(out[j] == o2[j]);
        }
        assert forall|k: int| 0 <= k < n implies #[trigger] out.subrange(
            ds + self.new_comp_sum(c0, c1, td, k),
            ds + self.new_comp_sum(c0, c1, td, k + 1),
        ) == self.new_chunk_bytes(nd, c0, c1, td, k) by {
            let lo = self.new_comp_sum(c0, c1, td, k);
            let hi = self.new_comp_sum(c0, c1, td, k + 1);
            self.lemma_comp_sum_mono(c0, c1, td, 0, k);
            self.lemma_comp_sum_mono(c0, c1, td, k, k + 1);
            self.lemma_comp_sum_mono(c0, c1, td, k + 1, n);
            assert(ch.subrange(lo, hi) == self.new_chunk_bytes(nd, c0, c1, td, k));
            assert(out.subrange(ds + lo, ds + hi) =~= ch.subrange(lo, hi));
        }
        assert forall|j: int|
            0 <= j < self.table_off && !(0x18 <= j < 0x20) && !(self.summary_off <= j
                < self.summary_off + 4) && !(self.totalcopy_off <= j < self.totalcopy_off
                + 4) implies #[trigger] out[j] == self.raw@[j] by {
            assert(tb[j] == self.raw@[j]);
            assert(body[j] == tb[j]);
            assert(o1[j] == body[j]);
            assert(o2[j] == o1[j]);
            assert(out[j] == o2[j]);
        }
    }
}

impl SaveFile {
    /// The chunks `c0..=c1` can be re-emitted around `nd`: the payload keeps
    /// its chunk count, and each re-emitted chunk has a size that fits its
    /// 24-bit table fields.
    pub open spec fn edit_fits(&self, nd: Seq<u8>, c0: int, c1: int) -> bool {
        let td = nd.len() - self.decompressed@.len();
        &&& 0 <= c0 <= c1 < self.nchunks
        &&& chunk_count(nd.len()) == self.nchunks
        &&& forall|i: int|
            c0 <= i <= c1 ==> 0 <= #[trigger] self.new_uncomp(c1, td, i) && self.new_comp(
                c0,
                c1,
                td,
                i,
            ) < 0x100_0000
    }

    /// `nd` differs from the payload only inside chunks `c0..=c1`: it starts
    /// with the payload's bytes before chunk `c0` and ends with those after
    /// chunk `c1` (by the chunk sizes the table declares).
    pub open spec fn changes_only(&self, nd: Seq<u8>, c0: int, c1: int) -> bool {
        let d = self.decompressed@;
        let x = declared_uncomp_sum(self.raw@, self.table_off as int, c1 + 1);
        let td = nd.len() - d.len();
        &&& self.chunk_start(c0) <= nd.len()
        &&& self.chunk_start(c0) <= d.len()
        &&& nd.subrange(0, self.chunk_start(c0)) == d.subrange(0, self.chunk_start(c0))
        &&& 0 <= x + td <= nd.len()
        &&& x <= d.len()
        &&& nd.subrange(x + td, nd.len() as int) == d.subrange(x as int, d.len() as int)
    }

    proof fn lemma_region_fits(&self, nd: Seq<u8>, c0: int, c1: int)
        requires
            self.wf(),
            self.edit_fits(nd, c0, c1),
            self.changes_only(nd, c0, c1),
        ensures
            self.new_uncomp(c1, nd.len() - self.decompressed@.len(), c1) >= 0,
            self.region_at(c0, c1, nd.len() - self.decompressed@.len(), c1 + 1) <= nd.len(),
    {
        let td = nd.len() - self.decompressed@.len();
        let to = self.table_off as int;
        let n = self.nchunks as int;
        self.lemma_new_start(c1, td, c0);
        self.lemma_new_start(c1, td, c1 + 1);
        self.lemma_new_start(c1, td, n);
        lemma_uncomp_sum_mono(self.raw@, to, c1 + 1, n);
        self.lemma_region_is_start(c0, c1, td, c1 + 1);
        assert(self.new_uncomp(c1, td, c1) >= 0);
    }

    proof fn lemma_start_bounds(&self, nd: Seq<u8>, c0: int, c1: int, i: int)
        requires
            self.wf(),
            self.edit_fits(nd, c0, c1),
            self.changes_only(nd, c0, c1),
            0 <= i < self.nchunks,
        ensures
            ({
                let td = nd.len() - self.decompressed@.len();
                &&& 0 <= self.new_start(c1, td, i)
                &&& self.new_start(c1, td, i) + self.new_uncomp(c1, td, i) == self.new_start(c1, td, i + 1)
                &&& self.new_start(c1, td, i + 1) <= nd.len()
                &&& 0 <= self.new_uncomp(c1, td, i)
            }),
    {
        let td = nd.len() - self.decompressed@.len();
        let to = self.table_off as int;
        let n = self.nchunks as int;
        self.lemma_new_start(c1, td, i);
        self.lemma_new_start(c1, td, i + 1);
        self.lemma_new_start(c1, td, n);
        lemma_uncomp_sum_mono(self.raw@, to, 0, i);
        lemma_uncomp_sum_mono(self.raw@, to, i + 1, n);
        assert(self.new_uncomp(c1, td, c1) >= 0);
        assert(self.chunks@[c1].1 == entry_uncomp(self.raw@, to, c1));
        if i + 1 <= c1 {
            lemma_uncomp_sum_mono(self.raw@, to, i + 1, c1);
        }
        if i > c1 {
            lemma_uncomp_sum_mono(self.raw@, to, c1 + 1, i);
        }
    }

    #[verifier::rlimit(80)]
    proof fn lemma_rebuilt_chunk(&self, nd: Seq<u8>, c0: int, c1: int, i: int)
        requires
            self.wf(),
            self.chunks_decode(),
            0x20 <= self.summary_off,
            self.edit_fits(nd, c0, c1),
            self.changes_only(nd, c0, c1),
            0 <= i < self.nchunks,
        ensures
            ({
                let td = nd.len() - self.decompressed@.len();
                let out = self.rebuilt(nd, c0, c1);
                let to = self.table_off as int;
                let comp = entry_comp(out, to, i);
                let uncomp = entry_uncomp(out, to, i);
                let pos = self.data_start + self.new_comp_sum(c0, c1, td, i);
                let start = self.new_start(c1, td, i);
                &&& 0 < comp
                &&& pos + comp <= out.len()
                &&& pos + comp == self.data_start + self.new_comp_sum(c0, c1, td, i + 1)
                &&& 0 <= start
                &&& start + uncomp == self.new_start(c1, td, i + 1) <= nd.len()
                &&& chunk_payload(out, self.decoded(), pos, comp, uncomp) == Some(nd.subrange(start, start + uncomp))
            }),
    {
        let td = nd.len() - self.decompressed@.len();
        let d = self.decompressed@;
        let n = self.nchunks as int;
        let to = self.table_off as int;
        let ds = self.data_start as int;
        let out = self.rebuilt(nd, c0, c1);
        let k = i + 1;
        self.lemma_new_start(c1, td, c0);
        self.lemma_new_start(c1, td, c1 + 1);
        self.lemma_new_start(c1, td, n);
        lemma_uncomp_sum_mono(self.raw@, to, c1 + 1, n);
        self.lemma_region_is_start(c0, c1, td, c1 + 1);
        assert(self.new_uncomp(c1, td, c1) >= 0);
        let comp = entry_comp(out, to, i);
        let uncomp = entry_uncomp(out, to, i);
        let pos = ds + self.new_comp_sum(c0, c1, td, i);
        assert(comp == self.new_comp(c0, c1, td, i) && uncomp == self.new_uncomp(c1, td, i)) by {
            self.lemma_rebuilt_consistent(nd, c0, c1);
        }
        let cd = out.subrange(pos, pos + comp);
        assert(self.new_comp_sum(c0, c1, td, k) == self.new_comp_sum(c0, c1, td, i) + self.new_comp(c0, c1, td, i));
        assert(pos + comp <= out.len() && cd == self.new_chunk_bytes(nd, c0, c1, td, i)
            && pos + comp == ds + self.new_comp_sum(c0, c1, td, k)) by {
            self.lemma_rebuilt_layout(nd, c0, c1);
            self.lemma_comp_sum_mono(c0, c1, td, k, n);
            assert(out.subrange(ds + self.new_comp_sum(c0, c1, td, i), ds + self.new_comp_sum(c0, c1, td, i + 1))
                == self.new_chunk_bytes(nd, c0, c1, td, i));
        }
        self.lemma_start_bounds(nd, c0, c1, i);
        self.lemma_new_start(c1, td, i);
        let c = self.chunks@[i];
        let xi = declared_uncomp_sum(self.raw@, to, i);
        let start = self.new_start(c1, td, i);
        let block = nd.subrange(start, start + uncomp);
        if c0 <= i <= c1 {
            self.lemma_region_is_start(c0, c1, td, i);
            assert(self.region_at(c0, c1, td, i) == start);
            let piece = nd.subrange(start, start + self.new_uncomp(c1, td, i));
            assert(self.new_chunk_bytes(nd, c0, c1, td, i) == seq![0xccu8, 0x06u8] + piece);
            assert(start + uncomp <= nd.len());
            assert(cd.subrange(2, 2 + uncomp as int) =~= block);
        } else {
            assert(cd == self.raw@.subrange(c.2 as int, c.2 + c.0));
            assert(chunk_payload(self.raw@, self.decoded(), c.2 as int, c.0 as nat, c.1 as nat) == Some(
                d.subrange(xi as int, xi + c.1),
            ));
            if i < c0 {
                lemma_uncomp_sum_mono(self.raw@, to, i + 1, c0);
                assert(xi + c.1 <= self.chunk_start(c0));
                assert(block =~= d.subrange(xi as int, xi + c.1)) by {
                    assert forall|m: int| 0 <= m < c.1 implies block[m] == d[xi + m] by {
                        assert(nd.subrange(0, self.chunk_start(c0))[xi + m] == d.subrange(0, self.chunk_start(c0))[xi + m]);
                    }
                }
            } else {
                let x = declared_uncomp_sum(self.raw@, to, c1 + 1);
                lemma_uncomp_sum_mono(self.raw@, to, c1 + 1, i);
                assert(block =~= d.subrange(xi as int, xi + c.1)) by {
                    assert forall|m: int| 0 <= m < c.1 implies block[m] == d[xi + m] by {
                        assert(nd.subrange(x + td, nd.len() as int)[xi - x + m] == d.subrange(x as int, d.len() as int)[xi - x + m]);
                    }
                }
            }
        }
    }

    proof fn lemma_rebuilt_scan(&self, nd: Seq<u8>, c0: int, c1: int, k: int)
        requires
            self.wf(),
            self.chunks_decode(),
            0x20 <= self.summary_off,
            self.edit_fits(nd, c0, c1),
            self.changes_only(nd, c0, c1),
            0 <= k <= self.nchunks,
        ensures
            ({
                let td = nd.len() - self.decompressed@.len();
                let r = scan_chunks(self.rebuilt(nd, c0, c1), self.decoded(), self.table_off as int, self.data_start as nat, k as nat);
                &&& r is Ok
                &&& r->Ok_0.data == nd.subrange(0, self.new_start(c1, td, k))
                &&& r->Ok_0.pos == self.data_start + self.new_comp_sum(c0, c1, td, k)
            }),
        decreases k,
    {
        if k == 0 {
            assert(nd.subrange(0, 0) =~= Seq::<u8>::empty());
        } else {
            let td = nd.len() - self.decompressed@.len();
            let i = k - 1;
            self.lemma_rebuilt_scan(nd, c0, c1, i);
            self.lemma_rebuilt_chunk(nd, c0, c1, i);
            let out = self.rebuilt(nd, c0, c1);
            let prev = scan_chunks(out, self.decoded(), self.table_off as int, self.data_start as nat, i as nat)->Ok_0;
            let start = self.new_start(c1, td, i);
            let uncomp = entry_uncomp(out, self.table_off as int, i);
            assert(prev.data + nd.subrange(start, start + uncomp) =~= nd.subrange(0, self.new_start(c1, td, k)));
        }
    }
}

proof fn lemma_find_tag_first(raw: Seq<u8>, limit: int, p: int, t: nat)
    requires
        find_tag_from(raw, limit, p) == Some(t),
    ensures
        0 <= p <= t,
        t + 4 <= limit,
        tag_at(raw, t as int),
        forall|q: int| p <= q < t ==> !#[trigger] tag_at(raw, q),
    decreases limit - p,
{
    if !tag_at(raw, p) {
        lemma_find_tag_first(raw, limit, p + 1, t);
    }
}

proof fn lemma_find_tag_at(raw: Seq<u8>, limit: int, p: int, t: int)
    requires
        0 <= p <= t,
        t + 4 <= limit,
        tag_at(raw, t),
        forall|q: int| p <= q < t ==> !#[trigger] tag_at(raw, q),
    ensures
        find_tag_from(raw, limit, p) == Some(t as nat),
    decreases t - p,
{
    if p < t {
        assert(!tag_at(raw, p));
        lemma_find_tag_at(raw, limit, p + 1, t);
    }
}

impl SaveFile {
    proof fn lemma_rebuilt_total_bytes(&self, nd: Seq<u8>, c0: int, c1: int)
        requires
            self.wf(),
            0x20 <= self.summary_off,
            0 <= c0 <= c1 < self.nchunks,
        ensures
            ({
                let out = self.rebuilt(nd, c0, c1);
                let td = nd.len() - self.decompressed@.len();
                forall|m: int| 0 <= m < 8 ==> #[trigger] out[0x18 + m] == le_bytes(
                    (self.total + td) as nat,
                    8,
                )[m]
            }),
    {
        let td = nd.len() - self.decompressed@.len();
        let n = self.nchunks as int;
        self.lemma_new_table_header(c0, c1, td, c1 + 1);
        let tb = self.new_table(c0, c1, td, c1 + 1);
        let ch = self.new_chunks(nd, c0, c1, td, n);
        let body = tb + ch;
        let new_total = (self.total + td) as nat;
        let a = le_bytes(new_total, 8);
        let b = le_bytes(new_total, 4);
        let sum = (self.new_comp_sum(c0, c1, td, n) % 0x1_0000_0000) as nat;
        let c = le_bytes(sum, 4);
        lemma_le_bytes_len(new_total, 8);
        lemma_le_bytes_len(new_total, 4);
        lemma_le_bytes_len(sum, 4);
        let o1 = overwrite(body, 0x18, a);
        let o2 = overwrite(o1, self.totalcopy_off as int, b);
        let out = overwrite(o2, self.summary_off as int, c);
        assert(out == self.rebuilt(nd, c0, c1));
        lemma_overwrite_at(body, 0x18, a);
        lemma_overwrite_at(o1, self.totalcopy_off as int, b);
        lemma_overwrite_at(o2, self.summary_off as int, c);
        assert forall|m: int| 0 <= m < 8 implies #[trigger] out[0x18 + m] == a[m] by {
            assert(o1[0x18 + m] == a[m]);
            assert(o2[0x18 + m] == o1[0x18 + m]);
            assert(out[0x18 + m] == o2[0x18 + m]);
        }
    }
}

/// The high bytes of a total size of at most 1 GiB, as written in the header.
proof fn lemma_small_total_bytes(v: nat)
    requires
        v <= 0x4000_0000,
    ensures
        le_bytes(v, 8)[3] <= 0x40,
        le_bytes(v, 8)[4] == 0,
        le_bytes(v, 8)[5] == 0,
        le_bytes(v, 8)[6] == 0,
        le_bytes(v, 8)[7] == 0,
{
    vstd::arithmetic::power2::lemma2_to64();
    vstd::arithmetic::power2::lemma2_to64_rest();
    lemma_le_bytes_index(v, 8, 3);
    lemma_le_bytes_index(v, 8, 4);
    lemma_le_bytes_index(v, 8, 5);
    lemma_le_bytes_index(v, 8, 6);
    lemma_le_bytes_index(v, 8, 7);
    assert(pow2(8 * 3nat) == 0x100_0000nat);
    assert(pow2(8 * 4nat) == 0x1_0000_0000nat);
    assert(pow2(8 * 5nat) == 0x100_0000_0000nat);
    assert(pow2(8 * 6nat) == 0x1_0000_0000_0000nat);
    assert(pow2(8 * 7nat) == 0x100_0000_0000_0000nat);
    lemma_le_bytes_len(v, 8);
    assert(v / 0x100_0000 <= 0x40);
    assert(v / 0x1_0000_0000 == 0);
    assert(v / 0x100_0000_0000 == 0);
    assert(v / 0x1_0000_0000_0000 == 0);
    assert(v / 0x100_0000_0000_0000 == 0);
}

/// The first tag in `out` is where it was in `raw`, when only the total
/// size at 0x18..0x20 changed before it and cannot complete a tag.
proof fn lemma_tag_kept(raw: Seq<u8>, out: Seq<u8>, tag: int, limit_r: int, limit_o: int)
    requires
        find_tag_from(raw, limit_r, 0) == Some(tag as nat),
        tag + 4 <= limit_o,
        0x20 <= tag,
        tag + 4 <= out.len(),
        tag + 4 <= raw.len(),
        forall|j: int| 0 <= j < tag + 4 && !(0x18 <= j < 0x20) ==> #[trigger] out[j] == raw[j],
        raw[0x15] != 0xc1u8,
        raw[0x16] != 0xc1u8,
        raw[0x17] != 0xc1u8,
        out[0x1b] <= 0x40,
        out[0x1c] == 0,
        out[0x1d] == 0,
        out[0x1e] == 0,
        out[0x1f] == 0,
    ensures
        find_tag_from(out, limit_o, 0) == Some(tag as nat),
{
    lemma_find_tag_first(raw, limit_r, 0, tag as nat);
    assert(tag_at(out, tag)) by {
        assert(out[tag] == raw[tag]);
        assert(out[tag + 1] == raw[tag + 1]);
        assert(out[tag + 2] == raw[tag + 2]);
        assert(out[tag + 3] == raw[tag + 3]);
    }
    assert forall|q: int| 0 <= q < tag implies !#[trigger] tag_at(out, q) by {
        if q + 3 < 0x18 || q >= 0x20 {
            assert(out[q] == raw[q]);
            assert(out[q + 1] == raw[q + 1]);
            assert(out[q + 2] == raw[q + 2]);
            assert(out[q + 3] == raw[q + 3]);
            assert(!tag_at(raw, q));
        } else if q <= 0x17 {
            assert(out[q] == raw[q]);
            assert(raw[q] != 0xc1u8);
        } else if q <= 0x1b {
            assert(out[0x1b] != 0x9eu8);
            assert(out[0x1c] == 0);
        } else {
            assert(out[q] == 0);
        }
    }
    lemma_find_tag_at(out, limit_o, 0, tag);
}

/// The first tag in `out` is where it was in `raw` when the bytes up to and
/// including it are the same.
proof fn lemma_tag_same(raw: Seq<u8>, out: Seq<u8>, tag: int, limit_r: int, limit_o: int)
    requires
        find_tag_from(raw, limit_r, 0) == Some(tag as nat),
        0 <= tag,
        tag + 4 <= limit_o,
        tag + 4 <= out.len(),
        tag + 4 <= raw.len(),
        forall|j: int| 0 <= j < tag + 4 ==> #[trigger] out[j] == raw[j],
    ensures
        find_tag_from(out, limit_o, 0) == Some(tag as nat),
{
    lemma_find_tag_first(raw, limit_r, 0, tag as nat);
    assert(tag_at(out, tag)) by {
        assert(out[tag] == raw[tag]);
        assert(out[tag + 1] == raw[tag + 1]);
        assert(out[tag + 2] == raw[tag + 2]);
        assert(out[tag + 3] == raw[tag + 3]);
    }
    assert forall|q: int| 0 <= q < tag implies !#[trigger] tag_at(out, q) by {
        assert(out[q] == raw[q]);
        assert(out[q + 1] == raw[q + 1]);
        assert(out[q + 2] == raw[q + 2]);
        assert(out[q + 3] == raw[q + 3]);
        assert(!tag_at(raw, q));
    }
    lemma_find_tag_at(out, limit_o, 0, tag);
}

impl SaveFile {
    /// The header lets the rebuilt file be read the same way: the rebuilt
    /// file keeps at least 0x500 bytes, Summary.CompressedSize lies after the
    /// total size at 0x18, and when the total size changes, the container tag
    /// lies after that field and no byte in 0x15..0x18 is the tag's first
    /// byte (otherwise the rewritten size could complete a tag that would be
    /// found first).
    pub open spec fn header_rereads(&self, nd: Seq<u8>, c0: int, c1: int) -> bool {
        let raw = self.raw@;
        &&& 0x500 <= self.rebuilt(nd, c0, c1).len()
        &&& 0x20 <= self.summary_off
        &&& (nd.len() == self.decompressed@.len() || (0x40 <= self.table_off && raw[0x15]
            != 0xc1u8 && raw[0x16] != 0xc1u8 && raw[0x17] != 0xc1u8))
    }
}

impl SaveFile {
    proof fn lemma_rebuilt_header(&self, nd: Seq<u8>, c0: int, c1: int)
        requires
            self.wf(),
            self.chunks_decode(),
            self.loaded_from(self.raw@),
            load_failure(self.raw@, self.decoded()) is None,
            self.header_rereads(nd, c0, c1),
            self.edit_fits(nd, c0, c1),
            self.changes_only(nd, c0, c1),
        ensures
            ({
                let out = self.rebuilt(nd, c0, c1);
                &&& has_magic(out)
                &&& header_total(out) == nd.len()
                &&& 0 < nd.len() <= MAX_TOTAL
                &&& container_tag(out) == container_tag(self.raw@)
                &&& self.data_start < out.len()
            }),
    {
        let raw = self.raw@;
        let out = self.rebuilt(nd, c0, c1);
        let td = nd.len() - self.decompressed@.len();
        let ds = self.data_start as int;
        let tag: int = container_tag(raw)->Some_0 as int;
        assert(self.table_off == tag + 0x20 && self.summary_off == tag + 0x11);
        assert(0 < nd.len() <= MAX_TOTAL) by {
            assert(self.nchunks <= 8192) by (nonlinear_arith)
                requires
                    self.nchunks == (self.total + 131071) / 131072,
                    self.total <= 0x4000_0000,
            ;
            assert(0 < nd.len() <= 0x4000_0000) by (nonlinear_arith)
                requires
                    self.nchunks == (nd.len() + 131071) / 131072,
                    self.nchunks <= 8192,
                    self.nchunks >= 1,
            ;
        }
        self.lemma_region_fits(nd, c0, c1);
        self.lemma_rebuilt_layout(nd, c0, c1);
        assert(ds < out.len()) by {
            self.lemma_rebuilt_chunk(nd, c0, c1, c0);
            self.lemma_comp_sum_mono(c0, c1, td, 0, c0);
        }
        assert(header_total(out) == nd.len()) by {
            self.lemma_rebuilt_consistent(nd, c0, c1);
        }
        assert(has_magic(out)) by {
            assert(out[0] == raw[0] && out[1] == raw[1] && out[2] == raw[2] && out[3] == raw[3]);
        }
        let limit_r = if raw.len() < SEARCH_LIMIT {
            raw.len() as int
        } else {
            SEARCH_LIMIT as int
        };
        let limit_o = if out.len() < SEARCH_LIMIT {
            out.len() as int
        } else {
            SEARCH_LIMIT as int
        };
        lemma_find_tag_first(raw, limit_r, 0, tag as nat);
        if nd.len() == self.decompressed@.len() {
            assert forall|j: int| 0 <= j < tag + 4 implies #[trigger] out[j] == raw[j] by {
                if 0x18 <= j < 0x20 {
                    self.lemma_rebuilt_total_bytes(nd, c0, c1);
                    crate::bytes::lemma_le_value_bytes(raw, 0x18, 8);
                    assert(self.total + td == self.total);
                    assert(out[0x18 + (j - 0x18)] == le_bytes(self.total as nat, 8)[j - 0x18]);
                    assert(raw.subrange(0x18, 0x20)[j - 0x18] == raw[j]);
                }
            }
            lemma_tag_same(raw, out, tag, limit_r, limit_o);
        } else {
            assert(out[0x1b] <= 0x40 && out[0x1c] == 0 && out[0x1d] == 0 && out[0x1e] == 0 && out[0x1f] == 0) by {
                self.lemma_rebuilt_total_bytes(nd, c0, c1);
                lemma_small_total_bytes(nd.len());
                assert(self.total + td == nd.len());
                let w = le_bytes(nd.len(), 8);
                assert(out[0x18int + 3] == w[3]);
                assert(out[0x18int + 4] == w[4]);
                assert(out[0x18int + 5] == w[5]);
                assert(out[0x18int + 6] == w[6]);
                assert(out[0x18int + 7] == w[7]);
            }
            lemma_tag_kept(raw, out, tag, limit_r, limit_o);
        }
    }

    /// A save rebuilt around a payload `nd` that differs from its own only
    /// inside the re-emitted chunks `c0..=c1` reads again without error and
    /// gives back exactly `nd`, when the re-emitted chunks' sizes fit their
    /// table fields and the header can be read the same way
    /// (`header_rereads`).
    pub proof fn lemma_rebuilt_reloads(&self, nd: Seq<u8>, c0: int, c1: int)
        requires
            self.wf(),
            self.chunks_decode(),
            self.loaded_from(self.raw@),
            load_failure(self.raw@, self.decoded()) is None,
            self.header_rereads(nd, c0, c1),
            self.edit_fits(nd, c0, c1),
            self.changes_only(nd, c0, c1),
        ensures
            load_failure(self.rebuilt(nd, c0, c1), self.decoded()) is None,
            spec_scan(self.rebuilt(nd, c0, c1), self.decoded())->Ok_0.data == nd,
    {
        let out = self.rebuilt(nd, c0, c1);
        let td = nd.len() - self.decompressed@.len();
        let n = self.nchunks as int;
        self.lemma_rebuilt_header(nd, c0, c1);
        assert(spec_table_off(out) == self.table_off);
        assert(spec_nchunks(out) == n);
        assert(spec_data_start(out) == self.data_start);
        self.lemma_rebuilt_scan(nd, c0, c1, n);
        self.lemma_new_start(c1, td, n);
        assert(nd.subrange(0, nd.len() as int) =~= nd);
    }
}

impl SaveFile {
    proof fn lemma_edit_span(&self, es: Seq<EditSpec>)
        requires
            self.wf(),
            es.len() > 0,
            edits_ordered(es, 0, self.decompressed@.len() as int),
            es.last().old_len >= 1,
        ensures
            0 <= es[0].off < max_end(es) <= self.total,
            max_end(es) == es.last().off + es.last().old_len,
            ({
                let c0 = self.chunk_holding(es[0].off, 0);
                let c1 = self.chunk_holding(max_end(es) - 1, 0);
                &&& 0 <= c0 <= c1 < self.nchunks
                &&& self.chunk_start(c0) <= es[0].off
                &&& max_end(es) - 1 < self.chunk_start(c1 + 1)
            }),
    {
        lemma_max_end_ordered(es, 0, self.decompressed@.len() as int);
        if es.len() > 1 {
            lemma_ordered_lower(es, es[0].off, self.decompressed@.len() as int, es.len() - 1);
        }
        assert(es.last() == es[es.len() - 1]);
        self.lemma_chunk_holding(es[0].off, 0);
        self.lemma_chunk_holding(max_end(es) - 1, 0);
        self.lemma_chunk_holding_mono(es[0].off, max_end(es) - 1, 0);
    }

    proof fn lemma_edit_changes_only(&self, es: Seq<EditSpec>, c0: int, c1: int)
        requires
            self.wf(),
            es.len() > 0,
            edits_ordered(es, 0, self.decompressed@.len() as int),
            es.last().old_len >= 1,
            c0 == self.chunk_holding(es[0].off, 0),
            c1 == self.chunk_holding(max_end(es) - 1, 0),
        ensures
            self.changes_only(spliced(self.decompressed@, es, 0), c0, c1),
    {
        let d = self.decompressed@;
        let nd = spliced(d, es, 0);
        let to = self.table_off as int;
        let n = self.nchunks as int;
        self.lemma_edit_span(es);
        let emin = es[0].off;
        let emax = max_end(es);
        let s0 = self.chunk_start(c0);
        lemma_spliced_prefix(d, es, 0);
        assert(nd.subrange(0, s0) =~= d.subrange(0, s0)) by {
            assert forall|j: int| 0 <= j < s0 implies nd.subrange(0, s0)[j] == d[j] by {
                assert(nd.subrange(0, emin)[j] == d.subrange(0, emin)[j]);
            }
        }
        let x: int = declared_uncomp_sum(self.raw@, to, c1 + 1) as int;
        assert(emax <= x <= d.len()) by {
            lemma_uncomp_sum_mono(self.raw@, to, c1 + 1, n);
        }
        lemma_spliced_suffix(d, es, 0);
        let e = es.last();
        let g = last_gap_start(es, 0);
        let tail = d.subrange(emax, d.len() as int);
        let suffix = d.subrange(g, e.off) + e.bytes + tail;
        let sfx = nd.subrange(nd.len() - suffix.len(), nd.len() as int);
        assert(sfx == suffix);
        let td = nd.len() - d.len();
        assert(nd.subrange(x + td, nd.len() as int) =~= d.subrange(x, d.len() as int)) by {
            assert forall|m: int| 0 <= m < d.len() - x implies nd.subrange(x + td, nd.len() as int)[m]
                == d.subrange(x, d.len() as int)[m] by {
                let k = suffix.len() - tail.len() + (x - emax) + m;
                assert(sfx[k] == suffix[k]);
                assert(suffix[k] == tail[x - emax + m]);
            }
        }
    }

    /// The chunks an edit re-emits, `c0..=c1`, hold sizes that fit the
    /// table's 24-bit fields once re-emitted.
    pub open spec fn sizes_fit(&self, nd: Seq<u8>, c0: int, c1: int) -> bool {
        forall|i: int|
            c0 <= i <= c1 ==> #[trigger] self.new_comp(
                c0,
                c1,
                nd.len() - self.decompressed@.len(),
                i,
            ) < 0x100_0000
    }

    /// The payload an edit of the varint at `value_off` (tag at `target`)
    /// produces, and the first and last chunks it re-emits.
    pub open spec fn edit_layout(&self, target: int, value_off: int, byte_len: int, new_bytes: Seq<u8>) -> (
        Seq<u8>,
        int,
        int,
    ) {
        let es = spec_plan(self.decompressed@, target, value_off, byte_len, new_bytes)->Ok_0;
        (
            spliced(self.decompressed@, es, 0),
            self.chunk_holding(es[0].off, 0),
            self.chunk_holding(max_end(es) - 1, 0),
        )
    }

    /// Editing a varint field gives, when the edit goes through, a file that
    /// reads again without error and holds exactly the edited payload, when
    /// the re-emitted chunks' sizes fit their table fields and the header can
    /// be read the same way (`header_rereads`).
    pub proof fn lemma_edit_reloads(&self, target: int, value_off: int, byte_len: int, new_bytes: Seq<u8>)
        requires
            self.wf(),
            self.chunks_decode(),
            self.loaded_from(self.raw@),
            load_failure(self.raw@, self.decoded()) is None,
            value_off == target + 1,
            editable_field(self.decompressed@, value_off, byte_len),
            self.spec_edit(target, value_off, byte_len, new_bytes) is Ok,
            ({
                let (nd, c0, c1) = self.edit_layout(target, value_off, byte_len, new_bytes);
                self.sizes_fit(nd, c0, c1) && self.header_rereads(nd, c0, c1)
            }),
        ensures
            ({
                let (out, nd) = self.spec_edit(target, value_off, byte_len, new_bytes)->Ok_0;
                load_failure(out, self.decoded()) is None && reloaded_payload(out, self.decoded()) == nd
            }),
    {
        let d = self.decompressed@;
        let es = spec_plan(d, target, value_off, byte_len, new_bytes)->Ok_0;
        let nd = spliced(d, es, 0);
        lemma_plan_ordered(d, target, value_off, byte_len, new_bytes);
        assert(es.last().old_len == byte_len);
        let c0 = self.chunk_holding(es[0].off, 0);
        let c1 = self.chunk_holding(max_end(es) - 1, 0);
        self.lemma_edit_span(es);
        self.lemma_edit_changes_only(es, c0, c1);
        let td = nd.len() - d.len();
        assert(self.edit_fits(nd, c0, c1)) by {
            assert forall|i: int| c0 <= i <= c1 implies 0 <= #[trigger] self.new_uncomp(c1, td, i)
                && self.new_comp(c0, c1, td, i) < 0x100_0000 by {
                assert(self.new_comp(c0, c1, td, i) < 0x100_0000);
            }
        }
        assert(self.spec_rebuild(nd, es) == Ok::<Seq<u8>, crate::rebuild::RebuildFailure>(self.rebuilt(nd, c0, c1)));
        self.lemma_rebuilt_reloads(nd, c0, c1);
    }
}

impl SaveFile {
    /// After an edit goes through, the rebuilt file's header is consistent:
    /// the total size (u64 at 0x18, and its u32 copy) is the edited payload's
    /// length, the uncompressed sizes the table declares add up to it,
    /// Summary.CompressedSize is the sum of the declared compressed sizes
    /// (modulo 2^32), and the first 0x18 header bytes are kept. It holds when
    /// Summary.CompressedSize lies after the total size field and the
    /// re-emitted chunks' sizes fit their 24-bit table fields.
    pub proof fn lemma_edit_header(&self, target: int, value_off: int, byte_len: int, new_bytes: Seq<u8>)
        requires
            self.wf(),
            0x20 <= self.summary_off,
            value_off == target + 1,
            editable_field(self.decompressed@, value_off, byte_len),
            self.spec_edit(target, value_off, byte_len, new_bytes) is Ok,
            ({
                let (nd, c0, c1) = self.edit_layout(target, value_off, byte_len, new_bytes);
                self.sizes_fit(nd, c0, c1)
            }),
        ensures
            ({
                let (out, nd) = self.spec_edit(target, value_off, byte_len, new_bytes)->Ok_0;
                let t = self.table_off as int;
                let n = self.nchunks as int;
                &&& crate::bytes::le_value(out, 0x18, 8) == nd.len()
                &&& crate::bytes::le_value(out, self.totalcopy_off as int, 4) == nd.len() % 0x1_0000_0000
                &&& declared_uncomp_sum(out, t, n) == nd.len()
                &&& crate::bytes::le_value(out, self.summary_off as int, 4)
                    == crate::save::declared_comp_sum(out, t, n) % 0x1_0000_0000
                &&& out.subrange(0, 0x18) == self.raw@.subrange(0, 0x18)
            }),
    {
        let d = self.decompressed@;
        let es = spec_plan(d, target, value_off, byte_len, new_bytes)->Ok_0;
        let nd = spliced(d, es, 0);
        lemma_plan_ordered(d, target, value_off, byte_len, new_bytes);
        assert(es.last().old_len == byte_len);
        let c0 = self.chunk_holding(es[0].off, 0);
        let c1 = self.chunk_holding(max_end(es) - 1, 0);
        self.lemma_edit_span(es);
        let td = nd.len() - d.len();
        assert(self.edit_fits(nd, c0, c1)) by {
            assert forall|i: int| c0 <= i <= c1 implies 0 <= #[trigger] self.new_uncomp(c1, td, i)
                && self.new_comp(c0, c1, td, i) < 0x100_0000 by {
                assert(self.new_comp(c0, c1, td, i) < 0x100_0000);
            }
        }
        let out = self.rebuilt(nd, c0, c1);
        assert(self.spec_rebuild(nd, es) == Ok::<Seq<u8>, crate::rebuild::RebuildFailure>(out));
        self.lemma_rebuilt_consistent(nd, c0, c1);
        self.lemma_rebuilt_layout(nd, c0, c1);
        self.lemma_comp_sum_mono(c0, c1, td, 0, self.nchunks as int);
        assert(out.len() >= 0x20);
        assert(out.subrange(0, 0x18) =~= self.raw@.subrange(0, 0x18)) by {
            assert forall|j: int| 0 <= j < 0x18 implies out.subrange(0, 0x18)[j] == self.raw@[j] by {
                assert(out[j] == self.raw@[j]);
            }
        }
    }
}

impl SaveFile {
    /// Rewriting a varint field with the bytes it already holds goes through
    /// and changes nothing: the edited payload is the payload itself, and
    /// the rebuilt file reads back to it, with the same total size. This
    /// holds under the conditions of `lemma_edit_reloads` for the chunks that
    /// hold the field.
    pub proof fn lemma_rewrite_keeps(&self, target: int, value_off: int, byte_len: int)
        requires
            self.wf(),
            self.chunks_decode(),
            self.loaded_from(self.raw@),
            load_failure(self.raw@, self.decoded()) is None,
            value_off == target + 1,
            editable_field(self.decompressed@, value_off, byte_len),
            ({
                let d = self.decompressed@;
                let c0 = self.chunk_holding(value_off, 0);
                let c1 = self.chunk_holding(value_off + byte_len - 1, 0);
                self.sizes_fit(d, c0, c1) && self.header_rereads(d, c0, c1)
            }),
        ensures
            ({
                let d = self.decompressed@;
                let e = self.spec_edit(target, value_off, byte_len, d.subrange(value_off, value_off + byte_len));
                &&& e matches Ok((out, nd)) && nd == d && load_failure(out, self.decoded()) is None
                    && reloaded_payload(out, self.decoded()) == d && header_total(out) == self.total
            }),
    {
        let d = self.decompressed@;
        let nb = d.subrange(value_off, value_off + byte_len);
        let es = seq![EditSpec { off: value_off, old_len: byte_len, bytes: nb }];
        crate::edit::lemma_same_width_edit(d, target, value_off, byte_len, nb);
        assert(crate::bytes::overwrite(d, value_off, nb) =~= d);
        let nd = spliced(d, es, 0);
        assert(nd == d);
        assert(max_end(es) == value_off + byte_len) by {
            assert(es.drop_last() =~= Seq::<EditSpec>::empty());
            assert(max_end(es.drop_last()) == 0);
            assert(es.last() == es[0]);
        }
        let c0 = self.chunk_holding(value_off, 0);
        let c1 = self.chunk_holding(value_off + byte_len - 1, 0);
        self.lemma_chunk_holding(value_off, 0);
        self.lemma_chunk_holding(value_off + byte_len - 1, 0);
        self.lemma_chunk_holding_mono(value_off, value_off + byte_len - 1, 0);
        let n = self.nchunks as int;
        self.lemma_new_start(c1, 0, c0);
        self.lemma_new_start(c1, 0, c1 + 1);
        lemma_uncomp_sum_mono(self.raw@, self.table_off as int, c1 + 1, n);
        self.lemma_region_is_start(c0, c1, 0, c1 + 1);
        assert(self.spec_rebuild(nd, es) is Ok);
        assert(self.edit_layout(target, value_off, byte_len, nb) == (d, c0, c1));
        self.lemma_edit_reloads(target, value_off, byte_len, nb);
        self.lemma_edit_header(target, value_off, byte_len, nb);
    }

    /// Setting the gold to the value it already holds (written minimally)
    /// gives a file that reads back to the same payload and total, where the
    /// gold is found again with that value; by `with_gold`'s contract the
    /// edit then returns that file.
    pub proof fn lemma_gold_rewrite_keeps(&self)
        requires
            self.wf(),
            self.chunks_decode(),
            self.loaded_from(self.raw@),
            load_failure(self.raw@, self.decoded()) is None,
            gold_candidates(self.decompressed@).len() == 1,
            ({
                let d = self.decompressed@;
                let g = gold_candidates(d)[0];
                let c0 = self.chunk_holding(g.value_off as int, 0);
                let c1 = self.chunk_holding(g.value_off + g.byte_len - 1, 0);
                &&& d.subrange(g.value_off as int, g.value_off + g.byte_len) == varint_encode(g.value as nat)
                &&& self.sizes_fit(d, c0, c1)
                &&& self.header_rereads(d, c0, c1)
            }),
        ensures
            ({
                let d = self.decompressed@;
                let g = gold_candidates(d)[0];
                let e = self.spec_edit(g.tag_off as int, g.value_off as int, g.byte_len as int, varint_encode(g.value as nat));
                &&& e matches Ok((out, nd)) && nd == d && load_failure(out, self.decoded()) is None
                    && header_total(out) == self.total
                    && gold_candidates(reloaded_payload(out, self.decoded())).len() == 1
                    && gold_candidates(reloaded_payload(out, self.decoded()))[0].value == g.value
            }),
    {
        let d = self.decompressed@;
        crate::stats::lemma_gold_hits_editable(d, d.len());
        let g = gold_candidates(d)[0];
        assert(g == gold_hits(d, d.len())[0]);
        self.lemma_rewrite_keeps(g.tag_off as int, g.value_off as int, g.byte_len as int);
    }

    /// Setting renown to the value it already holds (written minimally)
    /// gives a file that reads back to exactly the same payload and total; by
    /// `with_renown`'s contract the edit then returns that file.
    pub proof fn lemma_renown_rewrite_keeps(&self, current: u64)
        requires
            self.wf(),
            self.chunks_decode(),
            self.loaded_from(self.raw@),
            load_failure(self.raw@, self.decoded()) is None,
            renown_candidates(self.decompressed@, current).len() == 1,
            ({
                let d = self.decompressed@;
                let r = renown_candidates(d, current)[0];
                let c0 = self.chunk_holding(r.value_off as int, 0);
                let c1 = self.chunk_holding(r.value_off + r.byte_len - 1, 0);
                &&& d.subrange(r.value_off as int, r.value_off + r.byte_len) == varint_encode(current as nat)
                &&& self.sizes_fit(d, c0, c1)
                &&& self.header_rereads(d, c0, c1)
            }),
        ensures
            ({
                let d = self.decompressed@;
                let r = renown_candidates(d, current)[0];
                let e = self.spec_edit(r.value_off - 1, r.value_off as int, r.byte_len as int, varint_encode(current as nat));
                &&& e matches Ok((out, nd)) && nd == d && load_failure(out, self.decoded()) is None
                    && reloaded_payload(out, self.decoded()) == d && header_total(out) == self.total
            }),
    {
        let d = self.decompressed@;
        crate::stats::lemma_renown_hits_editable(d, current, d.len());
        let r = renown_candidates(d, current)[0];
        assert(r == renown_hits(d, current, d.len())[0]);
        self.lemma_rewrite_keeps(r.value_off - 1, r.value_off as int, r.byte_len as int);
    }
}

impl SaveFile {
    /// After an edit goes through, the rebuilt file reads back as a save
    /// with the same container: the chunk count, chunk table offset and data
    /// start are unchanged, the total size (u64 at 0x18, and its u32 copy) is
    /// the edited payload's length, Summary.CompressedSize is the sum of the
    /// compressed sizes the table declares (modulo 2^32), the first 0x18
    /// header bytes and the character, save and village names are kept, and
    /// the payload read back is the edited one. It holds under the
    /// conditions of `lemma_edit_reloads`, with the container after the name
    /// fields (Summary.CompressedSize at 0x420 or later).
    pub proof fn lemma_edit_reload_header(&self, target: int, value_off: int, byte_len: int, new_bytes: Seq<u8>)
        requires
            self.wf(),
            self.chunks_decode(),
            self.loaded_from(self.raw@),
            load_failure(self.raw@, self.decoded()) is None,
            0x420 <= self.summary_off,
            value_off == target + 1,
            editable_field(self.decompressed@, value_off, byte_len),
            self.spec_edit(target, value_off, byte_len, new_bytes) is Ok,
            ({
                let (nd, c0, c1) = self.edit_layout(target, value_off, byte_len, new_bytes);
                self.sizes_fit(nd, c0, c1) && self.header_rereads(nd, c0, c1)
            }),
        ensures
            ({
                let (out, nd) = self.spec_edit(target, value_off, byte_len, new_bytes)->Ok_0;
                let raw = self.raw@;
                let t = self.table_off as int;
                let n = self.nchunks as int;
                &&& load_failure(out, self.decoded()) is None
                &&& reloaded_payload(out, self.decoded()) == nd
                &&& spec_nchunks(out) == self.nchunks
                &&& spec_table_off(out) == self.table_off
                &&& spec_data_start(out) == self.data_start
                &&& header_total(out) == nd.len()
                &&& crate::bytes::le_value(out, self.totalcopy_off as int, 4) == nd.len() % 0x1_0000_0000
                &&& crate::bytes::le_value(out, self.summary_off as int, 4)
                    == crate::save::declared_comp_sum(out, t, n) % 0x1_0000_0000
                &&& declared_uncomp_sum(out, t, n) == nd.len()
                &&& out.subrange(0, 0x18) == raw.subrange(0, 0x18)
                &&& crate::bytes::c_field(out, 0x20, 256) == crate::bytes::c_field(raw, 0x20, 256)
                &&& crate::bytes::c_field(out, 0x220, 256) == crate::bytes::c_field(raw, 0x220, 256)
                &&& crate::bytes::c_field(out, 0x320, 256) == crate::bytes::c_field(raw, 0x320, 256)
            }),
    {
        let d = self.decompressed@;
        let raw = self.raw@;
        let es = spec_plan(d, target, value_off, byte_len, new_bytes)->Ok_0;
        let nd = spliced(d, es, 0);
        lemma_plan_ordered(d, target, value_off, byte_len, new_bytes);
        assert(es.last().old_len == byte_len);
        let c0 = self.chunk_holding(es[0].off, 0);
        let c1 = self.chunk_holding(max_end(es) - 1, 0);
        self.lemma_edit_span(es);
        self.lemma_edit_changes_only(es, c0, c1);
        let td = nd.len() - d.len();
        assert(self.edit_fits(nd, c0, c1)) by {
            assert forall|i: int| c0 <= i <= c1 implies 0 <= #[trigger] self.new_uncomp(c1, td, i)
                && self.new_comp(c0, c1, td, i) < 0x100_0000 by {
                assert(self.new_comp(c0, c1, td, i) < 0x100_0000);
            }
        }
        let out = self.rebuilt(nd, c0, c1);
        assert(self.spec_rebuild(nd, es) == Ok::<Seq<u8>, crate::rebuild::RebuildFailure>(out));
        self.lemma_edit_reloads(target, value_off, byte_len, new_bytes);
        self.lemma_edit_header(target, value_off, byte_len, new_bytes);
        self.lemma_rebuilt_header(nd, c0, c1);
        self.lemma_region_fits(nd, c0, c1);
        self.lemma_rebuilt_layout(nd, c0, c1);
        assert(spec_nchunks(out) == self.nchunks);
        assert forall|j: int| 0x20 <= j < 0x420 implies #[trigger] out[j] == raw[j] by {}
        assert(out.len() >= 0x420 && raw.len() >= 0x420);
        assert(out.subrange(0x20, 0x120) =~= raw.subrange(0x20, 0x120));
        assert(out.subrange(0x220, 0x320) =~= raw.subrange(0x220, 0x320));
        assert(out.subrange(0x320, 0x420) =~= raw.subrange(0x320, 0x420));
    }
}

impl SaveFile {
    /// Rebuilding refuses only a change in the number of chunks or a chunk
    /// that would shrink below empty: for edits in order over the payload
    /// (the last one replacing at least one byte), the file is rebuilt
    /// around the edited payload exactly when that payload needs as many
    /// chunks as the file has and the chunk holding the last edited byte,
    /// which absorbs the change in length, keeps a size of at least zero,
    /// whichever chunk the edits end in.
    pub proof fn lemma_rebuild_refuses_only(&self, es: Seq<EditSpec>)
        requires
            self.wf(),
            es.len() > 0,
            edits_ordered(es, 0, self.decompressed@.len() as int),
            es.last().old_len >= 1,
        ensures
            ({
                let nd = spliced(self.decompressed@, es, 0);
                let c1 = self.chunk_holding(max_end(es) - 1, 0);
                self.spec_rebuild(nd, es) is Ok <==> (chunk_count(nd.len()) == self.nchunks
                    && self.chunks@[c1].1 + nd.len() - self.decompressed@.len() >= 0)
            }),
    {
        let d = self.decompressed@;
        let nd = spliced(d, es, 0);
        let td = nd.len() - d.len();
        let to = self.table_off as int;
        let n = self.nchunks as int;
        let c0 = self.chunk_holding(es[0].off, 0);
        let c1 = self.chunk_holding(max_end(es) - 1, 0);
        self.lemma_edit_span(es);
        self.lemma_edit_changes_only(es, c0, c1);
        self.lemma_new_start(c1, td, c0);
        self.lemma_new_start(c1, td, c1 + 1);
        self.lemma_new_start(c1, td, n);
        lemma_uncomp_sum_mono(self.raw@, to, c1 + 1, n);
        self.lemma_region_is_start(c0, c1, td, c1 + 1);
    }
}

} // verus!
