use bellwright_gold_editor::bytes::read_str;
use bellwright_gold_editor::edit::splice;
use bellwright_gold_editor::error::Error;
use bellwright_gold_editor::oodle::DecodedBlock;
use bellwright_gold_editor::save::SaveFile;
use bellwright_gold_editor::text::{decimal_string, hex_string};
use bellwright_gold_editor::varint::{encode_varint, read_varint};

const BLOCK: usize = 131072;
const TAG: usize = 0x470;

fn field(tag: u8, body: &[u8]) -> Vec<u8> {
    let mut v = vec![tag];
    v.extend(encode_varint(body.len() as u64));
    v.extend_from_slice(body);
    v
}

fn gold_record(gold: u64) -> Vec<u8> {
    let mut v = vec![0x2a, 0x04, 0xe9, 0x52, 0xdd, 0x57, 0x30];
    v.extend(encode_varint(gold));
    v.extend_from_slice(&[0x3a, 0x02, 0x08, 0x01]);
    v
}

fn renown_record(id1: u64, value: u64) -> Vec<u8> {
    let mut sub = vec![0x08];
    sub.extend(encode_varint(id1));
    sub.push(0x10);
    sub.extend(encode_varint(value));
    let mut v = vec![0x20, 0x89, 0xc8, 0x9b, 0xdd, 0x02];
    v.extend(field(0x22, &sub));
    v.extend_from_slice(&[0x28, 0xbb, 0x0d]);
    v
}

/// Names, then the game state (field 3): an optional filler, the player
/// (field 4, holding the gold record), and two reputation records.
fn payload_with(gold: Option<u64>, renown: u64, filler: usize) -> Vec<u8> {
    let mut p = field(0x0a, b"Klint");
    p.extend(field(0x12, b"Karvenia_08"));
    let mut player = vec![0x08, 0x01];
    if let Some(g) = gold {
        player.extend(gold_record(g));
    }
    let mut state = Vec::new();
    if filler > 0 {
        state.extend(field(0x42, &vec![0u8; filler]));
    }
    state.extend(field(0x22, &player));
    state.extend(renown_record(7, 1234));
    state.extend(renown_record(9, renown));
    p.extend(field(0x1a, &state));
    p
}

fn payload(gold: u64, renown: u64, filler: usize) -> Vec<u8> {
    payload_with(Some(gold), renown, filler)
}

fn put(raw: &mut [u8], off: usize, bytes: &[u8]) {
    raw[off..off + bytes.len()].copy_from_slice(bytes);
}

fn u32_at(raw: &[u8], off: usize) -> u32 {
    u32::from_le_bytes(raw[off..off + 4].try_into().unwrap())
}

fn u64_at(raw: &[u8], off: usize) -> u64 {
    u64::from_le_bytes(raw[off..off + 8].try_into().unwrap())
}

fn u24_at(raw: &[u8], off: usize) -> usize {
    raw[off] as usize | (raw[off + 1] as usize) << 8 | (raw[off + 2] as usize) << 16
}

/// A v7 save holding `payload`; the chunks listed in `through_decoder` are
/// stored as Oodle blocks that go through the decoder (an uncompressed
/// Kraken block with one trailing byte), the others as plain `CC 06` blocks.
fn build_save_with(payload: &[u8], through_decoder: &[usize]) -> Vec<u8> {
    let n = payload.len().div_ceil(BLOCK);
    let table_off = TAG + 0x20;
    let data_start = table_off + n * 16 + 1;
    let mut raw = vec![0u8; data_start];
    put(&mut raw, 0, b"VSWB");
    raw[4] = 7;
    put(&mut raw, 0x18, &(payload.len() as u64).to_le_bytes());
    put(&mut raw, 0x20, b"Klint");
    put(&mut raw, 0x120, b"Karvenia_08");
    put(&mut raw, 0x220, b"TEST!");
    put(&mut raw, 0x320, b"Krakon");
    raw[0x468] = 4;
    put(
        &mut raw,
        TAG,
        &[0xc1, 0x83, 0x2a, 0x9e, 0x22, 0x22, 0x22, 0x22, 0x00, 0x00, 0x02, 0x00, 0x00, 0x00, 0x00, 0x00],
    );
    raw[0x480] = 0x02;
    let mut sum = 0usize;
    for i in 0..n {
        let chunk = &payload[i * BLOCK..payload.len().min((i + 1) * BLOCK)];
        let mut stored = vec![0xcc, 0x06];
        stored.extend_from_slice(chunk);
        if through_decoder.contains(&i) {
            stored.push(0x00);
        }
        let b = table_off + i * 16;
        put(&mut raw, b + 1, &(stored.len() as u32).to_le_bytes()[..3]);
        put(&mut raw, b + 9, &(chunk.len() as u32).to_le_bytes()[..3]);
        sum += stored.len();
        raw.extend(stored);
    }
    put(&mut raw, 0x481, &(sum as u32).to_le_bytes());
    put(&mut raw, 0x489, &(payload.len() as u32).to_le_bytes());
    raw
}

fn build_save(payload: &[u8]) -> Vec<u8> {
    build_save_with(payload, &[])
}

/// What the Oodle decoder gives for each block that reading `raw` needs.
fn decode(raw: &[u8]) -> Vec<DecodedBlock> {
    SaveFile::blocks_to_decode(raw)
        .into_iter()
        .map(|(pos, comp, uncomp)| {
            let block = raw[pos..pos + comp].to_vec();
            let mut out = vec![0u8; uncomp];
            let result = oozextract::Extractor::new()
                .read_from_slice(&block, &mut out)
                .map(|_| out)
                .map_err(|e| format!("{e:?}"));
            DecodedBlock { block, out_len: uncomp, result }
        })
        .collect()
}

fn load(raw: Vec<u8>) -> Result<SaveFile, Error> {
    let blocks = decode(&raw);
    SaveFile::load(raw, blocks)
}

/// A v7 save holding `payload` in chunks of the given uncompressed sizes,
/// all stored as `CC 06` blocks.
fn build_save_sized(payload: &[u8], sizes: &[usize]) -> Vec<u8> {
    assert_eq!(sizes.iter().sum::<usize>(), payload.len());
    let mut raw = build_save(&vec![0u8; payload.len()]);
    assert_eq!(sizes.len(), payload.len().div_ceil(BLOCK));
    let data_start = 0x490 + sizes.len() * 16 + 1;
    raw.truncate(data_start);
    let mut sum = 0usize;
    let mut at = 0usize;
    for (i, &n) in sizes.iter().enumerate() {
        let b = 0x490 + i * 16;
        put(&mut raw, b + 1, &((n + 2) as u32).to_le_bytes()[..3]);
        put(&mut raw, b + 9, &(n as u32).to_le_bytes()[..3]);
        raw.extend([0xcc, 0x06]);
        raw.extend_from_slice(&payload[at..at + n]);
        at += n;
        sum += n + 2;
    }
    put(&mut raw, 0x481, &(sum as u32).to_le_bytes());
    raw
}

fn sum_of_comp_sizes(raw: &[u8], n: usize) -> usize {
    (0..n).map(|i| u24_at(raw, 0x490 + i * 16 + 1)).sum()
}

#[test]
fn load_reads_header_layout_and_payload() {
    let p = payload(316, 2188, 100);
    let raw = build_save(&p);
    let s = load(raw.clone()).unwrap();
    assert_eq!(s.total, p.len());
    assert_eq!(s.nchunks, 1);
    assert_eq!(s.table_off, 0x490);
    assert_eq!(s.summary_off, 0x481);
    assert_eq!(s.totalcopy_off, 0x489);
    assert_eq!(s.data_start, 0x4a1);
    assert_eq!(s.chunks, vec![(p.len() + 2, p.len(), 0x4a1)]);
    assert_eq!(s.decompressed, p);
    assert_eq!(s.raw, raw);
    assert_eq!(s.display_name, "TEST!");
    assert_eq!(s.village, "Krakon");
    assert_eq!(s.character, "Klint");
}

#[test]
fn load_finds_a_moved_container() {
    // Format v8 moved the container +0x800; the tag is searched for.
    let p = payload(316, 2188, 100);
    let v7 = build_save(&p);
    let mut raw = v7[..TAG].to_vec();
    raw[4] = 8;
    raw.extend(vec![0u8; 0x800]);
    raw.extend_from_slice(&v7[TAG..]);
    let s = load(raw).unwrap();
    assert_eq!(s.table_off, 0xc90);
    assert_eq!(s.summary_off, 0xc81);
    assert_eq!(s.totalcopy_off, 0xc89);
    assert_eq!(s.decompressed, p);
}

#[test]
fn load_decodes_oodle_blocks() {
    let p = payload(316, 2188, 140_000);
    let raw = build_save_with(&p, &[0, 1]);
    let s = load(raw).unwrap();
    assert_eq!(s.nchunks, 2);
    assert_eq!(s.chunks[0].0, BLOCK + 3);
    assert_eq!(s.chunks[0].1, BLOCK);
    assert_eq!(s.decompressed, p);
}

#[test]
fn load_rejects_missing_magic() {
    let mut raw = build_save(&payload(316, 2188, 100));
    put(&mut raw, 0, b"XSWB");
    assert!(matches!(load(raw), Err(Error::BadFile(m)) if m == "missing VSWB magic"));
    assert!(matches!(load(vec![0x56, 0x53, 0x57, 0x42]), Err(Error::BadFile(m)) if m == "missing VSWB magic"));
}

#[test]
fn load_rejects_implausible_size() {
    let mut raw = build_save(&payload(316, 2188, 100));
    put(&mut raw, 0x18, &0u64.to_le_bytes());
    assert!(matches!(load(raw.clone()), Err(Error::BadFile(m)) if m == "implausible uncompressed size"));
    put(&mut raw, 0x18, &((1u64 << 30) + 1).to_le_bytes());
    assert!(matches!(load(raw), Err(Error::BadFile(m)) if m == "implausible uncompressed size"));
}

#[test]
fn load_rejects_missing_tag() {
    let mut raw = build_save(&payload(316, 2188, 100));
    raw[TAG] = 0;
    assert!(matches!(load(raw), Err(Error::BadFile(m)) if m == "compression container tag not found"));
}

#[test]
fn load_rejects_table_overrun() {
    let mut raw = build_save(&payload(316, 2188, 100));
    put(&mut raw, 0x18, &(1u64 << 30).to_le_bytes());
    assert!(matches!(load(raw), Err(Error::BadFile(m)) if m == "chunk table overruns file"));
}

#[test]
fn load_rejects_chunk_out_of_bounds() {
    let mut raw = build_save(&payload(316, 2188, 100));
    put(&mut raw, 0x491, &[0, 0, 0]);
    assert!(matches!(load(raw.clone()), Err(Error::BadFile(m)) if m == "chunk 0 out of bounds"));
    put(&mut raw, 0x491, &[0xff, 0xff, 0x0f]);
    assert!(matches!(load(raw), Err(Error::BadFile(m)) if m == "chunk 0 out of bounds"));
}

#[test]
fn load_reports_undecodable_chunk() {
    let mut raw = build_save(&payload(316, 2188, 100));
    // Not an uncompressed block: the decoder sees an invalid block header.
    raw[0x4a1] = 0x00;
    let (pos, comp, uncomp) = SaveFile::blocks_to_decode(&raw)[0];
    let mut out = vec![0u8; uncomp];
    let why = oozextract::Extractor::new().read_from_slice(&raw[pos..pos + comp], &mut out).unwrap_err();
    match load(raw) {
        Err(Error::Decompress(m)) => assert_eq!(m, format!("chunk 0: {why:?}")),
        other => panic!("unexpected: {:?}", other.err()),
    }
}

#[test]
fn load_reports_size_mismatch() {
    let p = payload(316, 2188, 100);
    let mut raw = build_save(&p);
    let declared = p.len() as u64 + 1;
    put(&mut raw, 0x18, &declared.to_le_bytes());
    let expected = format!("reassembled {} bytes, header says {}", p.len(), declared);
    assert!(matches!(load(raw), Err(Error::Decompress(m)) if m == expected));
}

#[test]
fn find_gold_locates_the_record() {
    let s = load(build_save(&payload(316, 2188, 100))).unwrap();
    let g = s.find_gold().unwrap();
    assert_eq!(g.value, 316);
    assert_eq!(g.byte_len, 2);
    assert_eq!(g.value_off, g.tag_off + 1);
    assert_eq!(s.decompressed[g.tag_off], 0x30);
    assert_eq!(&s.decompressed[g.tag_off - 6..g.tag_off], &[0x2a, 0x04, 0xe9, 0x52, 0xdd, 0x57]);
    assert_eq!(&s.decompressed[g.value_off..g.value_off + 2], &[0xbc, 0x02]);
}

#[test]
fn find_gold_reads_a_longer_id() {
    // v8: the id grew to six bytes (`2a 06 ...`).
    let mut p = field(0x0a, b"Klint");
    let mut rec = vec![0x2a, 0x06, 0xe9, 0x52, 0xdd, 0x57, 0xd6, 0x61, 0x30];
    rec.extend(encode_varint(2000));
    rec.extend_from_slice(&[0x3a, 0x00]);
    p.extend(field(0x1a, &rec));
    p.extend(field(0x42, &[0u8; 120]));
    let s = load(build_save(&p)).unwrap();
    let g = s.find_gold().unwrap();
    assert_eq!(g.value, 2000);
    assert_eq!(g.tag_off, 2 + 5 + 2 + 8);
}

#[test]
fn find_gold_counts_candidates() {
    let s = load(build_save(&payload_with(None, 2188, 100))).unwrap();
    assert!(matches!(s.find_gold(), Err(Error::GoldNotFound(0))));
    let mut p = payload(316, 2188, 100);
    p.extend(field(0x3a, &gold_record(5)));
    let s = load(build_save(&p)).unwrap();
    assert!(matches!(s.find_gold(), Err(Error::GoldNotFound(2))));
}

#[test]
fn ancestor_chain_lists_enclosing_containers() {
    let p = payload(316, 2188, 100);
    let s = load(build_save(&p)).unwrap();
    let g = s.find_gold().unwrap();
    let chain = s.ancestor_chain(g.tag_off).unwrap();
    assert_eq!(chain.len(), 2);
    // The state container (field 3) and the player container (field 4).
    let (state_lp, state_len, state_lp_len) = chain[0];
    assert_eq!(p[state_lp - 1], 0x1a);
    assert_eq!(read_varint(&p, state_lp), Some((state_len, state_lp + state_lp_len, state_lp_len)));
    assert_eq!(state_lp + state_lp_len + state_len as usize, p.len());
    let (player_lp, player_len, player_lp_len) = chain[1];
    assert_eq!(p[player_lp - 1], 0x22);
    assert_eq!(player_len as usize, 2 + gold_record(316).len());
    assert_eq!(player_lp_len, 1);
    assert!(player_lp + 1 <= g.tag_off && g.tag_off < player_lp + 1 + player_len as usize);
}

#[test]
fn ancestor_chain_reports_bad_structure() {
    let mut p = vec![0x0b, 0x00];
    p.extend(payload(316, 2188, 100));
    let s = load(build_save(&p)).unwrap();
    let g = s.find_gold().unwrap();
    assert!(matches!(s.ancestor_chain(g.tag_off), Err(Error::ParseError(m)) if m == "unsupported wire 3 @0x0"));
    // Growing the gold needs the chain, and fails the same way.
    assert!(matches!(s.with_gold(20000), Err(Error::ParseError(m)) if m == "unsupported wire 3 @0x0"));
    // A same-width edit does not walk the tree.
    assert!(s.with_gold(2000).is_ok());
}

#[test]
fn ancestor_chain_reports_unreachable_field() {
    // The gold record hides inside a fixed64 value, which the walk skips.
    let mut p = vec![0x09, 0x2a, 0x01, 0x00, 0x30, 0x05, 0x3a, 0x00, 0x00];
    p.extend(field(0x42, &[0u8; 120]));
    let s = load(build_save(&p)).unwrap();
    let g = s.find_gold().unwrap();
    assert_eq!(g.tag_off, 4);
    assert!(matches!(s.ancestor_chain(4), Err(Error::ParseError(m)) if m == "target field not reachable by parse"));
    assert!(matches!(s.with_gold(200), Err(Error::ParseError(m)) if m == "target field not reachable by parse"));
}

#[test]
fn with_gold_same_width_keeps_the_length() {
    let p = payload(316, 2188, 100);
    let raw = build_save(&p);
    let s = load(raw.clone()).unwrap();
    let g = s.find_gold().unwrap();
    let out = s.with_gold(2000).unwrap();
    assert_eq!(out.len(), raw.len());
    let s2 = load(out.clone()).unwrap();
    assert_eq!(s2.total, s.total);
    assert_eq!(s2.find_gold().unwrap().value, 2000);
    let mut expected = p.clone();
    expected[g.value_off..g.value_off + 2].copy_from_slice(&[0xd0, 0x0f]);
    assert_eq!(s2.decompressed, expected);
    assert_eq!(u32_at(&out, 0x481) as usize, sum_of_comp_sizes(&out, 1));
}

#[test]
fn with_gold_grow_fixes_every_container() {
    let p = payload(2000, 2188, 100);
    let s = load(build_save(&p)).unwrap();
    let g = s.find_gold().unwrap();
    let before = s.ancestor_chain(g.tag_off).unwrap();
    let out = s.with_gold(20000).unwrap();
    let s2 = load(out.clone()).unwrap();
    assert_eq!(s2.total, s.total + 1);
    assert_eq!(u64_at(&out, 0x18) as usize, s.total + 1);
    assert_eq!(u32_at(&out, 0x489) as usize, s.total + 1);
    assert_eq!(u32_at(&out, 0x481) as usize, sum_of_comp_sizes(&out, 1));
    let g2 = s2.find_gold().unwrap();
    assert_eq!(g2.value, 20000);
    assert_eq!(g2.byte_len, 3);
    let after = s2.ancestor_chain(g2.tag_off).unwrap();
    assert_eq!(after.len(), before.len());
    for (a, b) in after.iter().zip(before.iter()) {
        assert_eq!(a.0, b.0);
        assert_eq!(a.1, b.1 + 1);
    }
    assert_eq!(s2.decompressed, payload(20000, 2188, 100));
}

#[test]
fn with_gold_shrink_reads_back() {
    let s = load(build_save(&payload(20000, 2188, 100))).unwrap();
    let out = s.with_gold(5).unwrap();
    let s2 = load(out).unwrap();
    assert_eq!(s2.total, s.total - 2);
    assert_eq!(s2.find_gold().unwrap().value, 5);
    assert_eq!(s2.decompressed, payload(5, 2188, 100));
}

#[test]
fn with_gold_across_chunks() {
    // The state's length prefix is in chunk 0, the gold in chunk 1.
    let p = payload(316, 2188, 140_000);
    let s = load(build_save_with(&p, &[0, 1])).unwrap();
    assert_eq!(s.nchunks, 2);
    let g = s.find_gold().unwrap();
    assert!(g.tag_off >= BLOCK);
    let out = s.with_gold(20000).unwrap();
    let s2 = load(out.clone()).unwrap();
    assert_eq!(s2.decompressed, payload(20000, 2188, 140_000));
    assert_eq!(s2.chunks[0], (BLOCK + 2, BLOCK, s2.data_start));
    assert_eq!(s2.chunks[1].1, s.chunks[1].1 + 1);
    assert_eq!(s2.chunks[1].0, s.chunks[1].1 + 3);
    assert_eq!(u32_at(&out, 0x481) as usize, sum_of_comp_sizes(&out, 2));
}

#[test]
fn with_gold_copies_untouched_chunks() {
    // Gold in chunk 0; chunks 1 and 2 stay exactly as stored.
    let mut p = payload(316, 2188, 100);
    p.extend(field(0x42, &vec![7u8; 2 * BLOCK + 10]));
    let raw = build_save_with(&p, &[1, 2]);
    let s = load(raw.clone()).unwrap();
    assert_eq!(s.nchunks, 3);
    let out = s.with_gold(2000).unwrap();
    let s2 = load(out.clone()).unwrap();
    assert_eq!(s2.chunks[1].0, s.chunks[1].0);
    assert_eq!(s2.chunks[2].0, s.chunks[2].0);
    let (c1, _, p1) = s.chunks[1];
    let (d1, _, q1) = s2.chunks[1];
    assert_eq!(&out[q1..q1 + d1], &raw[p1..p1 + c1]);
    assert_eq!(s2.find_gold().unwrap().value, 2000);
    assert_eq!(u32_at(&out, 0x481) as usize, sum_of_comp_sizes(&out, 3));
}

#[test]
fn with_gold_refuses_a_chunk_count_change() {
    // A payload of exactly one block: growing the gold needs a second chunk.
    let p = (BLOCK - 400..BLOCK)
        .map(|f| payload(16383, 2188, f))
        .find(|p| p.len() == BLOCK)
        .expect("a filler that fills one block");
    let s = load(build_save(&p)).unwrap();
    assert_eq!(s.nchunks, 1);
    assert!(matches!(s.with_gold(16384), Err(Error::TooLarge(m)) if m == "edit changes chunk count (near a block boundary)"));
    // Same width, or shrinking, keeps one chunk.
    assert_eq!(load(s.with_gold(16000).unwrap()).unwrap().find_gold().unwrap().value, 16000);
    assert_eq!(load(s.with_gold(1).unwrap()).unwrap().find_gold().unwrap().value, 1);
}

#[test]
fn with_gold_refuses_a_negative_container_length() {
    // A container whose declared length is 2^63 or more reads as negative.
    let mut p = vec![0x0a];
    p.extend(encode_varint((1u64 << 63) + 5));
    let mut player = vec![0x08, 0x01];
    player.extend(gold_record(316));
    p.extend(field(0x22, &player));
    p.extend(field(0x42, &[0u8; 120]));
    let s = load(build_save(&p)).unwrap();
    let g = s.find_gold().unwrap();
    assert_eq!(s.ancestor_chain(g.tag_off).unwrap()[0].1, (1u64 << 63) + 5);
    assert!(matches!(s.with_gold(20000), Err(Error::ParseError(m)) if m == "negative container length"));
}

#[test]
fn with_gold_reports_missing_gold() {
    let s = load(build_save(&payload_with(None, 2188, 100))).unwrap();
    assert!(matches!(s.with_gold(5), Err(Error::GoldNotFound(0))));
}

#[test]
fn plan_splice_and_rebuild_make_the_edit() {
    let s = load(build_save(&payload(2000, 2188, 100))).unwrap();
    let g = s.find_gold().unwrap();
    let edits = s.plan_edits(g.tag_off, g.value_off, g.byte_len, encode_varint(20000)).unwrap();
    assert_eq!(edits.len(), 3);
    assert!(edits.windows(2).all(|w| w[0].off + w[0].old_len <= w[1].off));
    assert_eq!(edits[2].off, g.value_off);
    assert_eq!(edits[2].bytes, vec![0xa0, 0x9c, 0x01]);
    let nd = splice(&s.decompressed, &edits);
    assert_eq!(nd, payload(20000, 2188, 100));
    let out = s.rebuild(&nd, &edits).unwrap();
    assert_eq!(out, s.with_gold(20000).unwrap());
}

#[test]
fn find_renown_by_value() {
    let s = load(build_save(&payload(316, 2188, 100))).unwrap();
    let r = s.find_renown(2188).unwrap();
    assert_eq!(r.value, 2188);
    assert_eq!(r.byte_len, 2);
    assert_eq!(s.decompressed[r.value_off - 1], 0x10);
    assert_eq!(read_varint(&s.decompressed, r.value_off), Some((2188, r.value_off + 2, 2)));
    assert_eq!(s.find_renown(1234).unwrap().value, 1234);
    assert!(matches!(s.find_renown(999), Err(Error::RenownNotFound(0))));
}

#[test]
fn find_renown_refuses_ambiguity() {
    let s = load(build_save(&payload(316, 1234, 100))).unwrap();
    assert!(matches!(s.find_renown(1234), Err(Error::RenownNotFound(2))));
    assert!(matches!(s.with_renown(1234, 5), Err(Error::RenownNotFound(2))));
}

#[test]
fn with_renown_grow_then_shrink() {
    let s = load(build_save(&payload(316, 2188, 100))).unwrap();
    let out = s.with_renown(2188, 50000).unwrap();
    let s2 = load(out).unwrap();
    assert_eq!(s2.total, s.total + 1);
    assert_eq!(s2.decompressed, payload(316, 50000, 100));
    let r = s2.find_renown(50000).unwrap();
    assert_eq!(r.byte_len, 3);
    let out = s2.with_renown(50000, 300).unwrap();
    let s3 = load(out).unwrap();
    assert_eq!(s3.decompressed, payload(316, 300, 100));
    assert_eq!(s3.find_gold().unwrap().value, 316);
}

#[test]
fn with_renown_keeps_what_follows() {
    let s = load(build_save(&payload(316, 2188, 100))).unwrap();
    let r = s.find_renown(2188).unwrap();
    let tail = s.decompressed[r.value_off + r.byte_len..].to_vec();
    let s2 = load(s.with_renown(2188, 20000).unwrap()).unwrap();
    let d = &s2.decompressed;
    assert_eq!(&d[d.len() - tail.len()..], &tail[..]);
    let p = d.len() - tail.len() - 3;
    assert_eq!(d[p - 1], 0x10);
    assert_eq!(read_varint(d, p), Some((20000, p + 3, 3)));
}

#[test]
fn read_str_trims_at_nul_and_end() {
    assert_eq!(read_str(b"abc\0def", 0, 7), "abc");
    assert_eq!(read_str(b"hello", 1, 100), "ello");
    assert_eq!(read_str(b"hello", 5, 3), "");
    assert_eq!(read_str(b"ab\xffc\0", 0, 5), "ab\u{FFFD}c");
}

#[test]
fn numbers_render_in_decimal_and_hex() {
    assert_eq!(decimal_string(0), "0");
    assert_eq!(decimal_string(1234567890), "1234567890");
    assert_eq!(decimal_string(u64::MAX), "18446744073709551615");
    assert_eq!(hex_string(0), "0");
    assert_eq!(hex_string(0x1a2b), "1a2b");
    assert_eq!(hex_string(0xa6c7f), "a6c7f");
}

#[test]
fn edits_follow_the_declared_chunk_sizes() {
    // The first chunk declares only 1000 bytes; the gold lies in the second.
    let p = payload(316, 2188, 140_000);
    let sizes = [1000, p.len() - 1000];
    let s = load(build_save_sized(&p, &sizes)).unwrap();
    assert_eq!(s.chunks[0].1, 1000);
    assert_eq!(s.decompressed, p);
    let g = s.find_gold().unwrap();
    assert!(g.tag_off > 1000);
    let out = s.with_gold(20000).unwrap();
    let s2 = load(out.clone()).unwrap();
    assert_eq!(s2.decompressed, payload(20000, 2188, 140_000));
    assert_eq!(s2.chunks[0].1, 1000);
    assert_eq!(s2.chunks[1].1, sizes[1] + 1);
    assert_eq!(u32_at(&out, 0x481) as usize, sum_of_comp_sizes(&out, 2));
    let out = s.with_renown(2188, 50000).unwrap();
    assert_eq!(load(out).unwrap().decompressed, payload(316, 50000, 140_000));
}

#[test]
fn blocks_to_decode_lists_oodle_chunks() {
    let p = payload(316, 2188, 140_000);
    let raw = build_save_with(&p, &[1]);
    let jobs = SaveFile::blocks_to_decode(&raw);
    let s = load(raw.clone()).unwrap();
    assert_eq!(jobs, vec![(s.chunks[1].2, s.chunks[1].0, s.chunks[1].1)]);
    assert_eq!(SaveFile::blocks_to_decode(&raw[..0x400]), vec![]);
}

#[test]
fn load_reports_a_block_left_undecoded() {
    let p = payload(316, 2188, 140_000);
    let raw = build_save_with(&p, &[1]);
    match SaveFile::load(raw.clone(), vec![]) {
        Err(Error::Decompress(m)) => assert_eq!(m, "chunk 1: block was not decoded"),
        other => panic!("unexpected: {:?}", other.err()),
    }
    let (pos, comp, uncomp) = SaveFile::blocks_to_decode(&raw)[0];
    let failed = DecodedBlock { block: raw[pos..pos + comp].to_vec(), out_len: uncomp, result: Err("stream assertion".to_string()) };
    match SaveFile::load(raw, vec![failed]) {
        Err(Error::Decompress(m)) => assert_eq!(m, "chunk 1: stream assertion"),
        other => panic!("unexpected: {:?}", other.err()),
    }
}

#[test]
fn rewriting_the_current_values_keeps_the_payload() {
    let p = payload(316, 2188, 100);
    let s = load(build_save(&p)).unwrap();
    let s2 = load(s.with_gold(316).unwrap()).unwrap();
    assert_eq!(s2.decompressed, p);
    assert_eq!(s2.total, s.total);
    let s3 = load(s.with_renown(2188, 2188).unwrap()).unwrap();
    assert_eq!(s3.decompressed, p);
    assert_eq!(s3.total, s.total);
}

#[test]
fn successive_edits_equal_the_direct_edit() {
    let p = payload(316, 2188, 100);
    let s = load(build_save(&p)).unwrap();
    let direct = load(s.with_gold(20000).unwrap()).unwrap();
    let s1 = load(s.with_gold(2000).unwrap()).unwrap();
    let twice = load(s1.with_gold(20000).unwrap()).unwrap();
    assert_eq!(twice.decompressed, direct.decompressed);
    let back = load(s1.with_gold(316).unwrap()).unwrap();
    assert_eq!(back.decompressed, p);
    let r1 = load(s.with_renown(2188, 50000).unwrap()).unwrap();
    let r2 = load(r1.with_renown(50000, 300).unwrap()).unwrap();
    let r3 = load(s.with_renown(2188, 300).unwrap()).unwrap();
    assert_eq!(r2.decompressed, r3.decompressed);
}

#[test]
fn edit_keeps_header_names_and_layout() {
    let p = payload(2000, 2188, 100);
    let raw = build_save(&p);
    let s = load(raw.clone()).unwrap();
    let out = s.with_gold(20000).unwrap();
    let s2 = load(out.clone()).unwrap();
    assert_eq!(&out[..0x18], &raw[..0x18]);
    assert_eq!(s2.nchunks, s.nchunks);
    assert_eq!(s2.table_off, s.table_off);
    assert_eq!(s2.data_start, s.data_start);
    assert_eq!((s2.display_name, s2.village, s2.character), (s.display_name.clone(), s.village.clone(), s.character.clone()));
    assert_eq!(u32_at(&out, 0x481) as usize, s2.chunks.iter().map(|c| c.0).sum::<usize>());
}
