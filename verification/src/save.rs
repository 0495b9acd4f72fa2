//! The save container: header, chunk table, and the decompressed payload.

use vstd::prelude::*;
use vstd::slice::slice_subrange;
use crate::bytes::{le_value, read_le, read_str, c_field, utf8_lossy};
use crate::error::Error;
use crate::oodle::{DecodedBlock, DecodedView, decoded_error, decoded_lookup, decoded_views, find_decoded};
use crate::text::{decimal_chars, decimal_string, join2, join3};

verus! {

/// Uncompressed size of a full chunk (128 KiB).
pub const BLOCK: usize = 131072;

/// Header bytes searched for the container tag.
pub const SEARCH_LIMIT: usize = 0x4000;

/// Largest accepted total uncompressed size (1 GiB).
pub const MAX_TOTAL: u64 = 0x4000_0000;

/// Number of chunks holding `total` payload bytes.
pub open spec fn chunk_count(total: nat) -> nat {
    ((total + BLOCK - 1) / (BLOCK as int)) as nat
}

/// The chunk count is the least number of full blocks that hold `total`
/// bytes: that many blocks hold them all, one fewer does not.
pub proof fn lemma_chunk_count_least(total: nat)
    ensures
        chunk_count(total) * BLOCK >= total,
        total > 0 ==> (chunk_count(total) - 1) * BLOCK < total,
        total == 0 ==> chunk_count(total) == 0,
{
    let b = BLOCK as int;
    let q = chunk_count(total) as int;
    assert(q == (total + b - 1) / b);
    assert(q * b <= total + b - 1 < q * b + b) by (nonlinear_arith)
        requires
            q == (total + b - 1) / b,
            b == 131072,
            total >= 0,
    ;
}

/// The file starts with the `VSWB` magic and is long enough to hold a header.
pub open spec fn has_magic(raw: Seq<u8>) -> bool {
    &&& raw.len() >= 0x500
    &&& raw[0] == 0x56u8
    &&& raw[1] == 0x53u8
    &&& raw[2] == 0x57u8
    &&& raw[3] == 0x42u8
}

/// The total uncompressed size declared at 0x18 (u64 LE).
pub open spec fn header_total(raw: Seq<u8>) -> nat {
    le_value(raw, 0x18, 8)
}

/// UE `PACKAGE_FILE_TAG` (`c1 83 2a 9e`) stands at `p`.
pub open spec fn tag_at(raw: Seq<u8>, p: int) -> bool {
    &&& raw[p] == 0xc1u8
    &&& raw[p + 1] == 0x83u8
    &&& raw[p + 2] == 0x2au8
    &&& raw[p + 3] == 0x9eu8
}

/// First position at or after `p` where the tag stands entirely before `limit`.
pub open spec fn find_tag_from(raw: Seq<u8>, limit: int, p: int) -> Option<nat>
    decreases limit - p,
{
    if p < 0 || p + 4 > limit {
        None
    } else if tag_at(raw, p) {
        Some(p as nat)
    } else {
        find_tag_from(raw, limit, p + 1)
    }
}

/// Offset of the compression container's tag within the searched header.
pub open spec fn container_tag(raw: Seq<u8>) -> Option<nat> {
    let limit = if raw.len() < SEARCH_LIMIT {
        raw.len() as int
    } else {
        SEARCH_LIMIT as int
    };
    find_tag_from(raw, limit, 0)
}

/// Compressed size in the chunk table entry of chunk `i` (24-bit LE at byte 1).
pub open spec fn entry_comp(raw: Seq<u8>, table_off: int, i: int) -> nat {
    le_value(raw, table_off + 16 * i + 1, 3)
}

/// Uncompressed size in the chunk table entry of chunk `i` (24-bit LE at byte 9).
pub open spec fn entry_uncomp(raw: Seq<u8>, table_off: int, i: int) -> nat {
    le_value(raw, table_off + 16 * i + 9, 3)
}

/// Sum of the compressed sizes declared by the first `k` chunk table entries.
pub open spec fn declared_comp_sum(raw: Seq<u8>, table_off: int, k: int) -> nat
    decreases k,
{
    if k <= 0 {
        0
    } else {
        declared_comp_sum(raw, table_off, k - 1) + entry_comp(raw, table_off, k - 1)
    }
}

/// Sum of the uncompressed sizes declared by the first `k` chunk table entries.
pub open spec fn declared_uncomp_sum(raw: Seq<u8>, table_off: int, k: int) -> nat
    decreases k,
{
    if k <= 0 {
        0
    } else {
        declared_uncomp_sum(raw, table_off, k - 1) + entry_uncomp(raw, table_off, k - 1)
    }
}

/// The payload bytes of one stored chunk: an uncompressed block (`CC` tag,
/// two header bytes) is copied, anything else is what the table of decoded
/// blocks `t` gives for it.
pub open spec fn chunk_payload(raw: Seq<u8>, t: Seq<DecodedView>, pos: int, comp: nat, uncomp: nat) -> Option<Seq<u8>> {
    let cd = raw.subrange(pos, pos + comp);
    if cd[0] == 0xccu8 && comp == uncomp + 2 {
        Some(cd.subrange(2, 2 + uncomp as int))
    } else {
        decoded_lookup(t, cd, uncomp)
    }
}

/// Why reading a save failed.
pub ghost enum LoadFailure {
    MissingMagic,
    ImplausibleSize,
    TagNotFound,
    TableOverrun,
    ChunkOutOfBounds(nat),
    ChunkUndecodable(nat, Seq<char>),
    SizeMismatch(nat, nat),
}

/// The chunk table entries, payload and data position after the first `k` chunks.
pub ghost struct ChunkScan {
    pub table: Seq<(usize, usize, usize)>,
    pub data: Seq<u8>,
    pub pos: nat,
}

/// Reading the first `k` chunks, whose data starts at `data_start`.
pub open spec fn scan_chunks(raw: Seq<u8>, t: Seq<DecodedView>, table_off: int, data_start: nat, k: nat) -> Result<
    ChunkScan,
    LoadFailure,
>
    decreases k,
{
    if k == 0 {
        Ok(ChunkScan { table: Seq::empty(), data: Seq::empty(), pos: data_start })
    } else {
        match scan_chunks(raw, t, table_off, data_start, (k - 1) as nat) {
            Err(f) => Err(f),
            Ok(sc) => {
                let i = k - 1;
                let comp = entry_comp(raw, table_off, i);
                let uncomp = entry_uncomp(raw, table_off, i);
                if comp == 0 || sc.pos + comp > raw.len() {
                    Err(LoadFailure::ChunkOutOfBounds(i as nat))
                } else {
                    match chunk_payload(raw, t, sc.pos as int, comp, uncomp) {
                        None => Err(
                            LoadFailure::ChunkUndecodable(
                                i as nat,
                                decoded_error(t, raw.subrange(sc.pos as int, (sc.pos + comp) as int), uncomp),
                            ),
                        ),
                        Some(block) => Ok(
                            ChunkScan {
                                table: sc.table.push(
                                    (comp as usize, uncomp as usize, sc.pos as usize),
                                ),
                                data: sc.data + block,
                                pos: sc.pos + comp,
                            },
                        ),
                    }
                }
            },
        }
    }
}

/// Offset of the chunk table (tag + 0x20).
pub open spec fn spec_table_off(raw: Seq<u8>) -> nat {
    container_tag(raw).unwrap() + 0x20
}

/// Number of chunks the header declares.
pub open spec fn spec_nchunks(raw: Seq<u8>) -> nat {
    chunk_count(header_total(raw))
}

/// Offset of the first chunk's data (after the table and a prefix byte).
pub open spec fn spec_data_start(raw: Seq<u8>) -> nat {
    spec_table_off(raw) + 16 * spec_nchunks(raw) + 1
}

/// The chunks read from the table.
pub open spec fn spec_scan(raw: Seq<u8>, t: Seq<DecodedView>) -> Result<ChunkScan, LoadFailure> {
    scan_chunks(raw, t, spec_table_off(raw) as int, spec_data_start(raw), spec_nchunks(raw))
}

/// Why the header of `raw` does not lead to its chunks, or `None` when it
/// does.
pub open spec fn header_failure(raw: Seq<u8>) -> Option<LoadFailure> {
    if !has_magic(raw) {
        Some(LoadFailure::MissingMagic)
    } else if header_total(raw) == 0 || header_total(raw) > MAX_TOTAL {
        Some(LoadFailure::ImplausibleSize)
    } else if container_tag(raw) is None {
        Some(LoadFailure::TagNotFound)
    } else if spec_data_start(raw) >= raw.len() {
        Some(LoadFailure::TableOverrun)
    } else {
        None
    }
}

/// The stored blocks that go to the decoder among chunks `i..k`, whose data
/// starts at `pos`, up to the first chunk that lies out of bounds:
/// (offset, stored size, uncompressed size) of each.
pub open spec fn blocks_from(raw: Seq<u8>, table_off: int, pos: nat, i: nat, k: nat) -> Seq<
    (usize, usize, usize),
>
    decreases k - i,
{
    if i >= k {
        Seq::empty()
    } else {
        let comp = entry_comp(raw, table_off, i as int);
        let uncomp = entry_uncomp(raw, table_off, i as int);
        if comp == 0 || pos + comp > raw.len() {
            Seq::empty()
        } else {
            let rest = blocks_from(raw, table_off, pos + comp, i + 1, k);
            if raw[pos as int] == 0xccu8 && comp == uncomp + 2 {
                rest
            } else {
                seq![(pos as usize, comp as usize, uncomp as usize)] + rest
            }
        }
    }
}

/// The stored blocks of `raw` that reading it looks up in the table of
/// decoded blocks, in chunk order; none when its header does not lead to
/// its chunks.
pub open spec fn blocks_to_decode(raw: Seq<u8>) -> Seq<(usize, usize, usize)> {
    if header_failure(raw) is Some {
        Seq::empty()
    } else {
        blocks_from(raw, spec_table_off(raw) as int, spec_data_start(raw), 0, spec_nchunks(raw))
    }
}

/// Why `raw` is not a readable save, given the decoded blocks `t`, or
/// `None` when it is.
pub open spec fn load_failure(raw: Seq<u8>, t: Seq<DecodedView>) -> Option<LoadFailure> {
    if header_failure(raw) is Some {
        header_failure(raw)
    } else {
        match spec_scan(raw, t) {
            Err(f) => Some(f),
            Ok(sc) => if sc.data.len() != header_total(raw) {
                Some(LoadFailure::SizeMismatch(sc.data.len(), header_total(raw)))
            } else {
                None
            },
        }
    }
}

/// The error `e` reports the failure `f`.
pub open spec fn reports(e: Error, f: LoadFailure) -> bool {
    match f {
        LoadFailure::MissingMagic => e matches Error::BadFile(m) && m@ == "missing VSWB magic"@,
        LoadFailure::ImplausibleSize => e matches Error::BadFile(m) && m@
            == "implausible uncompressed size"@,
        LoadFailure::TagNotFound => e matches Error::BadFile(m) && m@
            == "compression container tag not found"@,
        LoadFailure::TableOverrun => e matches Error::BadFile(m) && m@
            == "chunk table overruns file"@,
        LoadFailure::ChunkOutOfBounds(i) => e matches Error::BadFile(m) && m@ == "chunk "@
            + decimal_chars(i) + " out of bounds"@,
        LoadFailure::ChunkUndecodable(i, why) => e matches Error::Decompress(m) && m@ == "chunk "@
            + decimal_chars(i) + ": "@ + why,
        LoadFailure::SizeMismatch(got, want) => e matches Error::Decompress(m) && m@
            == "reassembled "@ + decimal_chars(got) + " bytes, header says "@ + decimal_chars(
            want,
        ),
    }
}

/// A loaded save: raw bytes, header-derived layout, chunk table, and the
/// fully decompressed protobuf payload.
pub struct SaveFile {
    pub raw: Vec<u8>,
    pub total: usize,
    pub nchunks: usize,
    pub data_start: usize,
    /// Offset of the chunk table (tag + 0x20).
    pub table_off: usize,
    /// Offset of Summary.CompressedSize (u32 LE, tag + 0x11).
    pub summary_off: usize,
    /// Offset of the byte-shifted total-uncompressed-size copy (u32 LE, tag + 0x19).
    pub totalcopy_off: usize,
    /// (comp_size, uncomp_size, file_offset_of_compressed_data)
    pub chunks: Vec<(usize, usize, usize)>,
    pub decompressed: Vec<u8>,
    pub display_name: String,
    pub village: String,
    pub character: String,
    /// The decoded Oodle blocks the payload was read with.
    pub blocks: Vec<DecodedBlock>,
}

impl SaveFile {
    /// The table of decoded blocks, as the specification sees it.
    pub open spec fn decoded(&self) -> Seq<DecodedView> {
        decoded_views(self.blocks@)
    }

    /// Every field is what reading `raw` gives.
    pub open spec fn loaded_from(&self, raw: Seq<u8>) -> bool {
        let tag = container_tag(raw).unwrap();
        &&& self.raw@ == raw
        &&& self.total == header_total(raw)
        &&& self.nchunks == spec_nchunks(raw)
        &&& self.table_off == tag + 0x20
        &&& self.summary_off == tag + 0x11
        &&& self.totalcopy_off == tag + 0x19
        &&& self.data_start == spec_data_start(raw)
        &&& self.chunks@ == spec_scan(raw, self.decoded())->Ok_0.table
        &&& self.decompressed@ == spec_scan(raw, self.decoded())->Ok_0.data
        &&& self.display_name@ == utf8_lossy(c_field(raw, 0x220, 256))
        &&& self.village@ == utf8_lossy(c_field(raw, 0x320, 256))
        &&& self.character@ == utf8_lossy(c_field(raw, 0x20, 256))
    }

    /// Every chunk is stored with a non-zero size and decodes to its own
    /// slice of the payload, the slices following one another in table order.
    pub open spec fn chunks_decode(&self) -> bool {
        forall|i: int|
            0 <= i < self.chunks@.len() ==> {
                let c = #[trigger] self.chunks@[i];
                let x = declared_uncomp_sum(self.raw@, self.table_off as int, i);
                &&& 0 < c.0
                &&& chunk_payload(self.raw@, self.decoded(), c.2 as int, c.0 as nat, c.1 as nat) == Some(
                    self.decompressed@.subrange(x as int, x + c.1),
                )
            }
    }

    /// The chunks follow one another from `data_start` on, each starting
    /// where the one before it ends.
    pub open spec fn chunks_chained(&self) -> bool {
        &&& self.chunks@.len() > 0 ==> self.chunks@[0].2 == self.data_start
        &&& forall|i: int|
            0 <= i < self.chunks@.len() - 1 ==> #[trigger] self.chunks@[i + 1].2 == self.chunks@[i].2
                + self.chunks@[i].0
    }

    /// The layout facts an edit relies on, which every loaded save has.
    pub open spec fn wf(&self) -> bool {
        &&& self.raw@.len() >= 0x500
        &&& 0 < self.total <= MAX_TOTAL
        &&& self.decompressed@.len() == self.total
        &&& self.nchunks == chunk_count(self.total as nat)
        &&& self.chunks@.len() == self.nchunks
        &&& 0x20 <= self.table_off
        &&& self.summary_off + 4 <= self.table_off
        &&& self.totalcopy_off + 4 <= self.table_off
        &&& self.totalcopy_off == self.summary_off + 8
        &&& self.data_start == self.table_off + 16 * self.nchunks + 1
        &&& self.data_start < self.raw@.len()
        &&& declared_uncomp_sum(self.raw@, self.table_off as int, self.nchunks as int) == self.total
        &&& forall|i: int|
            0 <= i < self.nchunks ==> {
                let c = #[trigger] self.chunks@[i];
                &&& self.data_start <= c.2
                &&& c.2 + c.0 <= self.raw@.len()
                &&& c.0 == entry_comp(self.raw@, self.table_off as int, i)
                &&& c.1 == entry_uncomp(self.raw@, self.table_off as int, i)
                &&& c.0 < 0x100_0000
                &&& c.1 < 0x100_0000
            }
    }
}

proof fn lemma_scan_error_persists(raw: Seq<u8>, t: Seq<DecodedView>, table_off: int, data_start: nat, k: nat, n: nat)
    requires
        k <= n,
        scan_chunks(raw, t, table_off, data_start, k) is Err,
    ensures
        scan_chunks(raw, t, table_off, data_start, n) == scan_chunks(raw, t, table_off, data_start, k),
    decreases n - k,
{
    if k < n {
        lemma_scan_error_persists(raw, t, table_off, data_start, k, (n - 1) as nat);
    }
}

pub(crate) proof fn lemma_uncomp_sum_mono(raw: Seq<u8>, table_off: int, j: int, k: int)
    requires
        j <= k,
    ensures
        declared_uncomp_sum(raw, table_off, j) <= declared_uncomp_sum(raw, table_off, k),
    decreases k - j,
{
    if j < k {
        lemma_uncomp_sum_mono(raw, table_off, j, k - 1);
    }
}

fn append_slice(out: &mut Vec<u8>, src: &[u8])
    ensures
        final(out)@ == old(out)@ + src@,
{
    let n = src.len();
    let mut j: usize = 0;
    while j < n
        invariant
            n == src@.len(),
            j <= n,
            out@ == old(out)@ + src@.take(j as int),
        decreases n - j,
    {
        out.push(src[j]);
        j += 1;
        proof {
            assert(src@.take(j as int) =~= src@.take((j - 1) as int).push(src@[j - 1]));
        }
    }
    proof {
        assert(src@.take(n as int) =~= src@);
    }
}

fn bad_file(msg: &str) -> (e: Error)
    ensures
        e matches Error::BadFile(m) && m@ == msg@,
{
    Error::BadFile(String::from_str(msg))
}

/// Check the header of `raw` and find the compression container: the
/// total uncompressed size and the tag's offset.
fn read_layout(raw: &[u8]) -> (r: Result<(usize, usize), Error>)
    ensures
        match header_failure(raw@) {
            Some(f) => r matches Err(e) && reports(e, f),
            None => r matches Ok((total, tag)) && total == header_total(raw@) && container_tag(
                raw@,
            ) == Some(tag as nat),
        },
        r matches Ok((total, tag)) ==> {
            &&& tag + 4 <= SEARCH_LIMIT
            &&& 0 < total <= MAX_TOTAL
            &&& tag + 0x20 + 16 * chunk_count(total as nat) + 1 < raw@.len()
        },
{
    if raw.len() < 0x500 || raw[0] != 0x56 || raw[1] != 0x53 || raw[2] != 0x57 || raw[3]
        != 0x42 {
        return Err(bad_file("missing VSWB magic"));
    }
    let total64 = read_le(raw, 0x18, 8);
    if total64 == 0 || total64 > MAX_TOTAL {
        return Err(bad_file("implausible uncompressed size"));
    }
    let total = total64 as usize;
    let limit = if raw.len() < SEARCH_LIMIT {
        raw.len()
    } else {
        SEARCH_LIMIT
    };
    let mut p: usize = 0;
    let mut found = false;
    while p + 4 <= limit
        invariant_except_break
            limit <= raw@.len(),
            limit <= SEARCH_LIMIT,
            p <= limit,
            limit == if raw@.len() < SEARCH_LIMIT { raw@.len() as int } else { SEARCH_LIMIT as int },
            find_tag_from(raw@, limit as int, 0) == find_tag_from(raw@, limit as int, p as int),
            !found,
        ensures
            found ==> find_tag_from(raw@, limit as int, 0) == Some(p as nat),
            found ==> p + 4 <= limit,
            limit <= SEARCH_LIMIT,
            !found ==> find_tag_from(raw@, limit as int, 0) is None,
        decreases limit - p,
    {
        if raw[p] == 0xc1 && raw[p + 1] == 0x83 && raw[p + 2] == 0x2a && raw[p + 3] == 0x9e {
            found = true;
            break;
        }
        p += 1;
    }
    if !found {
        return Err(bad_file("compression container tag not found"));
    }
    let tag = p;
    assert(container_tag(raw@) == Some(tag as nat));
    let nchunks = (total + BLOCK - 1) / BLOCK;
    assert(nchunks <= 8192);
    if tag + 0x20 + nchunks * 16 + 1 >= raw.len() {
        return Err(bad_file("chunk table overruns file"));
    }
    Ok((total, tag))
}

impl SaveFile {
    /// Read a save from its raw bytes: check the header, locate the
    /// compression container by its tag, and gather every chunk into one
    /// contiguous payload, taking the Oodle-compressed ones from the decoded
    /// blocks `blocks`.
    #[verifier::rlimit(60)]
    pub fn load(raw: Vec<u8>, blocks: Vec<DecodedBlock>) -> (res: Result<SaveFile, Error>)
        ensures
            res is Ok <==> load_failure(raw@, decoded_views(blocks@)) is None,
            res matches Ok(s) ==> s.loaded_from(raw@) && s.wf() && s.chunks_decode()
                && s.chunks_chained() && s.blocks@ == blocks@,
            res matches Err(e) ==> reports(e, load_failure(raw@, decoded_views(blocks@))->Some_0),
    {
        let ghost t = decoded_views(blocks@);
        let (total, tag) = match read_layout(raw.as_slice()) {
            Err(e) => return Err(e),
            Ok(r) => r,
        };
        assert(container_tag(raw@) == Some(tag as nat));
        let table_off = tag + 0x20;
        let summary_off = tag + 0x11;
        let totalcopy_off = tag + 0x19;
        let nchunks = (total + BLOCK - 1) / BLOCK;
        assert(nchunks <= 8192);
        let data_start = table_off + nchunks * 16 + 1;
        let ghost table_off_i = table_off as int;
        let mut chunks: Vec<(usize, usize, usize)> = Vec::new();
        let mut decompressed: Vec<u8> = Vec::new();
        let mut pos = data_start;
        let mut i: usize = 0;
        while i < nchunks
            invariant
                i <= nchunks,
                has_magic(raw@),
                header_total(raw@) == total,
                0 < total <= MAX_TOTAL,
                container_tag(raw@) == Some(tag as nat),
                table_off == tag + 0x20,
                nchunks == spec_nchunks(raw@),
                table_off == spec_table_off(raw@),
                data_start == spec_data_start(raw@),
                data_start < raw@.len(),
                data_start <= pos <= raw@.len(),
                t == decoded_views(blocks@),
                scan_chunks(raw@, t, table_off as int, data_start as nat, i as nat) == Ok::<
                    ChunkScan,
                    LoadFailure,
                >(ChunkScan { table: chunks@, data: decompressed@, pos: pos as nat }),
                chunks@.len() == i,
                i > 0 ==> chunks@[0].2 == data_start,
                i > 0 ==> pos == chunks@[i - 1].2 + chunks@[i - 1].0,
                i == 0 ==> pos == data_start,
                forall|j: int| 0 <= j < i - 1 ==> #[trigger] chunks@[j + 1].2 == chunks@[j].2 + chunks@[j].0,
                decompressed@.len() == declared_uncomp_sum(raw@, table_off as int, i as int),
                forall|j: int|
                    0 <= j < i ==> {
                        let c = #[trigger] chunks@[j];
                        &&& data_start <= c.2
                        &&& c.2 + c.0 <= raw@.len()
                        &&& c.0 == entry_comp(raw@, table_off as int, j)
                        &&& c.1 == entry_uncomp(raw@, table_off as int, j)
                        &&& 0 < c.0
                        &&& chunk_payload(raw@, t, c.2 as int, c.0 as nat, c.1 as nat) == Some(
                            decompressed@.subrange(
                                declared_uncomp_sum(raw@, table_off as int, j) as int,
                                declared_uncomp_sum(raw@, table_off as int, j) + c.1,
                            ),
                        )
                        &&& c.0 < 0x100_0000
                        &&& c.1 < 0x100_0000
                    },
            decreases nchunks - i,
        {
            let b = table_off + i * 16;
            let ghost dec0 = decompressed@;
            proof {
                crate::bytes::lemma_le_value_bound(raw@, b + 1, 3);
                crate::bytes::lemma_le_value_bound(raw@, b + 9, 3);
                vstd::arithmetic::power2::lemma2_to64();
            }
            let comp = read_le(raw.as_slice(), b + 1, 3) as usize;
            let uncomp = read_le(raw.as_slice(), b + 9, 3) as usize;
            assert(comp == entry_comp(raw@, table_off as int, i as int));
            assert(uncomp == entry_uncomp(raw@, table_off as int, i as int));
            if comp == 0 || comp > raw.len() - pos {
                proof {
                    lemma_scan_error_persists(raw@, t, table_off as int, data_start as nat, (i + 1) as nat, nchunks as nat);
                }
                return Err(
                    Error::BadFile(join3("chunk ", decimal_string(i as u64).as_str(), " out of bounds")),
                );
            }
            let cd = slice_subrange(raw.as_slice(), pos, pos + comp);
            if cd[0] == 0xcc && comp == uncomp + 2 {
                append_slice(&mut decompressed, slice_subrange(cd, 2, 2 + uncomp));
            } else {
                match find_decoded(&blocks, cd, uncomp) {
                    Ok(d) => {
                        append_slice(&mut decompressed, d.as_slice());
                    },
                    Err(why) => {
                        proof {
                            lemma_scan_error_persists(raw@, t, table_off as int, data_start as nat, (i + 1) as nat, nchunks as nat);
                        }
                        let prefix = join3("chunk ", decimal_string(i as u64).as_str(), ": ");
                        let msg = join2(prefix.as_str(), why.as_str());
                        return Err(Error::Decompress(msg));
                    },
                }
            }
            proof {
                let x = declared_uncomp_sum(raw@, table_off as int, i as int);
                assert(dec0.len() == x);
                assert(chunk_payload(raw@, t, pos as int, comp as nat, uncomp as nat) == Some(
                    decompressed@.subrange(x as int, x + uncomp),
                )) by {
                    let block = chunk_payload(raw@, t, pos as int, comp as nat, uncomp as nat)->Some_0;
                    assert(decompressed@ =~= dec0 + block);
                    assert(decompressed@.subrange(x as int, x + uncomp) =~= block);
                }
                assert forall|j: int| 0 <= j < i implies #[trigger] chunks@[j].1 + declared_uncomp_sum(
                    raw@,
                    table_off as int,
                    j,
                ) <= x && decompressed@.subrange(
                    declared_uncomp_sum(raw@, table_off as int, j) as int,
                    declared_uncomp_sum(raw@, table_off as int, j) + chunks@[j].1,
                ) == dec0.subrange(
                    declared_uncomp_sum(raw@, table_off as int, j) as int,
                    declared_uncomp_sum(raw@, table_off as int, j) + chunks@[j].1,
                ) by {
                    lemma_uncomp_sum_mono(raw@, table_off as int, j + 1, i as int);
                    let xj = declared_uncomp_sum(raw@, table_off as int, j);
                    assert(decompressed@.subrange(xj as int, xj + chunks@[j].1) =~= dec0.subrange(
                        xj as int,
                        xj + chunks@[j].1,
                    ));
                }
            }
            chunks.push((comp, uncomp, pos));
            pos += comp;
            i += 1;
        }
        if decompressed.len() != total {
            let msg = join2(
                join2("reassembled ", decimal_string(decompressed.len() as u64).as_str()).as_str(),
                join2(" bytes, header says ", decimal_string(total as u64).as_str()).as_str(),
            );
            proof {
                assert(msg@ =~= "reassembled "@ + decimal_chars(decompressed@.len()) + " bytes, header says "@
                    + decimal_chars(total as nat));
            }
            return Err(Error::Decompress(msg));
        }
        let display_name = read_str(raw.as_slice(), 0x220, 256);
        let village = read_str(raw.as_slice(), 0x320, 256);
        let character = read_str(raw.as_slice(), 0x20, 256);
        Ok(
            SaveFile {
                raw,
                total,
                nchunks,
                data_start,
                table_off,
                summary_off,
                totalcopy_off,
                chunks,
                decompressed,
                display_name,
                village,
                character,
                blocks,
            },
        )
    }
}

impl SaveFile {
    /// The stored blocks of `raw` that `load` looks up in its table of
    /// decoded blocks, in chunk order: (offset, stored size, uncompressed
    /// size) of each chunk that is not a plain `CC` block, up to the first
    /// chunk that lies out of bounds; none when the header does not lead to
    /// the chunks.
    pub fn blocks_to_decode(raw: &[u8]) -> (r: Vec<(usize, usize, usize)>)
        ensures
            r@ == blocks_to_decode(raw@),
    {
        let (total, tag) = match read_layout(raw) {
            Err(_) => return Vec::new(),
            Ok(v) => v,
        };
        let table_off = tag + 0x20;
        let nchunks = (total + BLOCK - 1) / BLOCK;
        assert(nchunks <= 8192);
        let data_start = table_off + nchunks * 16 + 1;
        let ghost whole = blocks_from(raw@, table_off as int, data_start as nat, 0, nchunks as nat);
        let mut out: Vec<(usize, usize, usize)> = Vec::new();
        let mut pos = data_start;
        let mut i: usize = 0;
        proof {
            assert(out@ + whole =~= whole);
            assert(header_failure(raw@) is None);
            assert(whole == blocks_to_decode(raw@));
        }
        while i < nchunks
            invariant
                i <= nchunks <= 8192,
                data_start < raw@.len(),
                data_start <= pos <= raw@.len(),
                table_off + 16 * nchunks < data_start,
                whole == blocks_to_decode(raw@),
                out@ + blocks_from(raw@, table_off as int, pos as nat, i as nat, nchunks as nat)
                    == whole,
            decreases nchunks - i,
        {
            let b = table_off + i * 16;
            proof {
                crate::bytes::lemma_le_value_bound(raw@, b + 1, 3);
                crate::bytes::lemma_le_value_bound(raw@, b + 9, 3);
                vstd::arithmetic::power2::lemma2_to64();
            }
            let comp = read_le(raw, b + 1, 3) as usize;
            let uncomp = read_le(raw, b + 9, 3) as usize;
            assert(comp == entry_comp(raw@, table_off as int, i as int));
            assert(uncomp == entry_uncomp(raw@, table_off as int, i as int));
            if comp == 0 || comp > raw.len() - pos {
                proof {
                    assert(blocks_from(raw@, table_off as int, pos as nat, i as nat, nchunks as nat)
                        =~= Seq::<(usize, usize, usize)>::empty());
                    assert(out@ + Seq::<(usize, usize, usize)>::empty() =~= out@);
                }
                return out;
            }
            let ghost rest = blocks_from(raw@, table_off as int, (pos + comp) as nat, (i + 1) as nat, nchunks as nat);
            if !(raw[pos] == 0xcc && comp == uncomp + 2) {
                proof {
                    assert(out@.push((pos, comp, uncomp)) + rest =~= out@ + (seq![(pos, comp, uncomp)] + rest));
                }
                out.push((pos, comp, uncomp));
            }
            pos = pos + comp;
            i += 1;
        }
        proof {
            assert(out@ + Seq::<(usize, usize, usize)>::empty() =~= out@);
        }
        out
    }
}

} // verus!
