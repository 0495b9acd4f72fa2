//! Oodle (Kraken) blocks, decoded before a save is read.
//!
//! The decoder can panic on malformed input, so it runs where a panic can be
//! caught and turned into an error, and the library is handed what it gave
//! for each block: a table of decoded blocks, looked up by the stored bytes
//! and the size asked for.

use vstd::prelude::*;
use vstd::string::*;

verus! {

/// What the decoder gave for one stored block asked to fill `out_len` bytes:
/// the decoded bytes, or the text of its error.
pub struct DecodedBlock {
    pub block: Vec<u8>,
    pub out_len: usize,
    pub result: Result<Vec<u8>, String>,
}

/// A decoded block as the specification sees it: `data` is the decoded
/// bytes when decoding succeeded with exactly `out_len` bytes; otherwise
/// `error` says why.
pub ghost struct DecodedView {
    pub block: Seq<u8>,
    pub out_len: nat,
    pub data: Option<Seq<u8>>,
    pub error: Seq<char>,
}

impl View for DecodedBlock {
    type V = DecodedView;

    open spec fn view(&self) -> DecodedView {
        DecodedView {
            block: self.block@,
            out_len: self.out_len as nat,
            data: match self.result {
                Ok(d) => if d@.len() == self.out_len {
                    Some(d@)
                } else {
                    None
                },
                Err(_) => None,
            },
            error: match self.result {
                Ok(_) => "decoded block has the wrong length"@,
                Err(m) => m@,
            },
        }
    }
}

/// The views of a table of decoded blocks.
pub open spec fn decoded_views(t: Seq<DecodedBlock>) -> Seq<DecodedView> {
    t.map_values(|b: DecodedBlock| b@)
}

/// The decoded bytes of `block` asked to fill `out_len` bytes: those of the
/// first matching entry of `t`, or `None` when that entry failed or no entry
/// matches.
pub open spec fn decoded_lookup(t: Seq<DecodedView>, block: Seq<u8>, out_len: nat) -> Option<Seq<u8>>
    decreases t.len(),
{
    if t.len() == 0 {
        None
    } else if t[0].block == block && t[0].out_len == out_len {
        t[0].data
    } else {
        decoded_lookup(t.drop_first(), block, out_len)
    }
}

/// Why `block`, asked to fill `out_len` bytes, has no decoded bytes in `t`:
/// the first matching entry's reason, or that no entry matches.
pub open spec fn decoded_error(t: Seq<DecodedView>, block: Seq<u8>, out_len: nat) -> Seq<char>
    decreases t.len(),
{
    if t.len() == 0 {
        "block was not decoded"@
    } else if t[0].block == block && t[0].out_len == out_len {
        t[0].error
    } else {
        decoded_error(t.drop_first(), block, out_len)
    }
}

/// Whether `a` and `b` hold the same bytes.
pub(crate) fn same_block(a: &[u8], b: &[u8]) -> (eq: bool)
    ensures
        eq == (a@ == b@),
{
    if a.len() != b.len() {
        return false;
    }
    let mut i: usize = 0;
    while i < a.len()
        invariant
            a@.len() == b@.len(),
            i <= a@.len(),
            forall|j: int| 0 <= j < i ==> a@[j] == b@[j],
        decreases a@.len() - i,
    {
        if a[i] != b[i] {
            return false;
        }
        i += 1;
    }
    proof {
        assert(a@ =~= b@);
    }
    true
}

fn copy_bytes(src: &Vec<u8>) -> (out: Vec<u8>)
    ensures
        out@ == src@,
{
    let mut out: Vec<u8> = Vec::new();
    let mut i: usize = 0;
    while i < src.len()
        invariant
            i <= src@.len(),
            out@ == src@.take(i as int),
        decreases src@.len() - i,
    {
        out.push(src[i]);
        i += 1;
        proof {
            assert(src@.take(i as int) =~= src@.take(i - 1).push(src@[i - 1]));
        }
    }
    proof {
        assert(src@.take(src@.len() as int) =~= src@);
    }
    out
}

/// Look up the decoded bytes of `block` asked to fill `out_len` bytes.
/// On failure, the text says why: the decoder's error, a decoded size other
/// than `out_len`, or a block that was not decoded.
pub fn find_decoded(t: &Vec<DecodedBlock>, block: &[u8], out_len: usize) -> (r: Result<Vec<u8>, String>)
    ensures
        match decoded_lookup(decoded_views(t@), block@, out_len as nat) {
            Some(d) => r matches Ok(v) && v@ == d,
            None => r matches Err(m) && m@ == decoded_error(decoded_views(t@), block@, out_len as nat),
        },
        r matches Ok(v) ==> v@.len() == out_len,
{
    let mut k: usize = 0;
    proof {
        assert(decoded_views(t@).skip(0) =~= decoded_views(t@));
    }
    while k < t.len()
        invariant
            k <= t@.len(),
            decoded_lookup(decoded_views(t@), block@, out_len as nat) == decoded_lookup(
                decoded_views(t@).skip(k as int),
                block@,
                out_len as nat,
            ),
            decoded_error(decoded_views(t@), block@, out_len as nat) == decoded_error(
                decoded_views(t@).skip(k as int),
                block@,
                out_len as nat,
            ),
        decreases t@.len() - k,
    {
        let e = &t[k];
        let ghost rest = decoded_views(t@).skip(k as int);
        proof {
            assert(rest[0] == e@);
            assert(rest.drop_first() =~= decoded_views(t@).skip(k + 1));
        }
        if e.out_len == out_len && same_block(e.block.as_slice(), block) {
            return match &e.result {
                Ok(d) => if d.len() == out_len {
                    Ok(copy_bytes(d))
                } else {
                    Err(String::from_str("decoded block has the wrong length"))
                },
                Err(m) => Err(String::from_str(m.as_str())),
            };
        }
        k += 1;
    }
    proof {
        assert(decoded_views(t@).skip(k as int) =~= Seq::<DecodedView>::empty());
    }
    Err(String::from_str("block was not decoded"))
}

/// A copy of a table of decoded blocks.
pub fn copy_blocks(t: &Vec<DecodedBlock>) -> (out: Vec<DecodedBlock>)
    ensures
        decoded_views(out@) == decoded_views(t@),
{
    let mut out: Vec<DecodedBlock> = Vec::new();
    let mut k: usize = 0;
    while k < t.len()
        invariant
            k <= t@.len(),
            out@.len() == k,
            forall|j: int| 0 <= j < k ==> (#[trigger] out@[j])@ == t@[j]@,
        decreases t@.len() - k,
    {
        let e = &t[k];
        let result = match &e.result {
            Ok(d) => Ok(copy_bytes(d)),
            Err(m) => Err(String::from_str(m.as_str())),
        };
        out.push(DecodedBlock { block: copy_bytes(&e.block), out_len: e.out_len, result });
        k += 1;
    }
    proof {
        assert(decoded_views(out@) =~= decoded_views(t@));
    }
    out
}

} // verus!
