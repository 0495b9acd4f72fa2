//! Walking the protobuf tree to the containers that enclose a field.

use vstd::prelude::*;
use crate::error::Error;
use crate::save::SaveFile;
use crate::text::{decimal_chars, decimal_string, hex_chars, hex_string, join2, join3};
use crate::varint::{lemma_read_varint_bounds, lemma_varint_roundtrip, read_varint, spec_read_varint, varint_encode};

verus! {

/// A container on the way to the target field:
/// (length-prefix offset, declared length, length-prefix byte length).
pub type Container = (usize, u64, usize);

/// Why the walk to a field failed.
pub ghost enum WalkFailure {
    BadTag(nat),
    BadVarint(nat),
    BadLen(nat),
    UnsupportedWire(nat, nat),
    Overran(nat),
    Unreachable,
}

/// Walk the fields of the container `[i, end)` towards `target`, having
/// entered the containers `chain`. At each field the tag is read; reaching
/// `target` ends the walk; a length-delimited field whose value range holds
/// `target` is entered; any other field is skipped (varint, fixed32, fixed64
/// or length-delimited), and must not overrun its container.
pub open spec fn walk(d: Seq<u8>, target: int, i: int, end: int, chain: Seq<Container>) -> Result<
    Seq<Container>,
    WalkFailure,
>
    decreases (if i < d.len() {
        d.len() - i
    } else {
        0
    }),
    when d.len() <= usize::MAX
{
    if !(i < end) {
        Err(WalkFailure::Unreachable)
    } else {
        match spec_read_varint(d, i) {
            None => Err(WalkFailure::BadTag(i as nat)),
            Some((tag, after_tag, _)) => {
                proof {
                    lemma_read_varint_bounds(d, i);
                }
                if i == target {
                    Ok(chain)
                } else {
                    let wire = tag % 8;
                    if wire == 0 {
                        match spec_read_varint(d, after_tag as int) {
                            None => Err(WalkFailure::BadVarint(after_tag as nat)),
                            Some((_, ni, _)) => {
                                proof {
                                    lemma_read_varint_bounds(d, after_tag as int);
                                }
                                if ni > end {
                                    Err(WalkFailure::Overran(ni as nat))
                                } else {
                                    walk(d, target, ni as int, end, chain)
                                }
                            },
                        }
                    } else if wire == 2 {
                        match spec_read_varint(d, after_tag as int) {
                            None => Err(WalkFailure::BadLen(after_tag as nat)),
                            Some((len, vstart, lblen)) => {
                                proof {
                                    lemma_read_varint_bounds(d, after_tag as int);
                                }
                                let vend = vstart + len;
                                if vstart <= target && target < vend {
                                    walk(
                                        d,
                                        target,
                                        vstart as int,
                                        vend,
                                        chain.push(((vstart - lblen) as usize, len, lblen)),
                                    )
                                } else if vend > end {
                                    Err(WalkFailure::Overran(vend as nat))
                                } else {
                                    walk(d, target, vend, end, chain)
                                }
                            },
                        }
                    } else if wire == 5 || wire == 1 {
                        let ni = after_tag + if wire == 5 {
                            4int
                        } else {
                            8int
                        };
                        if ni > end {
                            Err(WalkFailure::Overran(ni as nat))
                        } else {
                            walk(d, target, ni, end, chain)
                        }
                    } else {
                        Err(WalkFailure::UnsupportedWire(wire as nat, i as nat))
                    }
                }
            },
        }
    }
}

/// The containers enclosing `target`, from the root of the payload.
pub open spec fn spec_ancestor_chain(d: Seq<u8>, target: int) -> Result<Seq<Container>, WalkFailure> {
    walk(d, target, 0, d.len() as int, Seq::empty())
}

/// The error `e` reports the walk failure `f`.
pub open spec fn reports_walk(e: Error, f: WalkFailure) -> bool {
    e matches Error::ParseError(m) && m@ == match f {
        WalkFailure::BadTag(p) => "bad tag @0x"@ + hex_chars(p),
        WalkFailure::BadVarint(p) => "bad varint @0x"@ + hex_chars(p),
        WalkFailure::BadLen(p) => "bad len @0x"@ + hex_chars(p),
        WalkFailure::UnsupportedWire(w, p) => "unsupported wire "@ + decimal_chars(w) + " @0x"@
            + hex_chars(p),
        WalkFailure::Overran(p) => "overran container @0x"@ + hex_chars(p),
        WalkFailure::Unreachable => "target field not reachable by parse"@,
    }
}

/// Each container starts at or after `lo`, encloses `target` in its value
/// range, and ends its length prefix before the next one starts.
pub open spec fn nested_around(chain: Seq<Container>, lo: int, target: int) -> bool {
    &&& forall|k: int|
        0 <= k < chain.len() ==> {
            let c = #[trigger] chain[k];
            &&& lo <= c.0
            &&& 1 <= c.2 <= 10
            &&& c.0 + c.2 <= target < c.0 + c.2 + c.1
        }
    &&& forall|k: int|
        0 <= k < chain.len() - 1 ==> #[trigger] chain[k].0 + chain[k].2 <= chain[k + 1].0
}

/// A successful walk extends the chain it started with by containers nested
/// around the target, which it reached from its start.
pub proof fn lemma_walk_nested(d: Seq<u8>, target: int, i: int, end: int, chain: Seq<Container>)
    requires
        d.len() <= usize::MAX,
        walk(d, target, i, end, chain) is Ok,
    ensures
        ({
            let r = walk(d, target, i, end, chain)->Ok_0;
            &&& r.len() >= chain.len()
            &&& r.subrange(0, chain.len() as int) == chain
            &&& nested_around(r.subrange(chain.len() as int, r.len() as int), i, target)
            &&& i <= target < d.len()
        }),
    decreases (if i < d.len() {
        d.len() - i
    } else {
        0
    }),
{
    let r = walk(d, target, i, end, chain)->Ok_0;
    lemma_read_varint_bounds(d, i);
    let (tag, after_tag, _) = spec_read_varint(d, i)->Some_0;
    if i == target {
        assert(r == chain);
        assert(r.subrange(0, chain.len() as int) =~= chain);
        assert(r.subrange(chain.len() as int, r.len() as int) =~= Seq::<Container>::empty());
    } else {
        let wire = tag % 8;
        lemma_read_varint_bounds(d, after_tag as int);
        if wire == 2 {
            let (len, vstart, lblen) = spec_read_varint(d, after_tag as int)->Some_0;
            let vend = vstart + len;
            if vstart <= target && target < vend {
                let e: Container = ((vstart - lblen) as usize, len, lblen);
                let ch2 = chain.push(e);
                lemma_walk_nested(d, target, vstart as int, vend, ch2);
                let ext = r.subrange(chain.len() as int, r.len() as int);
                let ext2 = r.subrange(ch2.len() as int, r.len() as int);
                assert(r.subrange(0, chain.len() as int) =~= chain) by {
                    assert(r.subrange(0, ch2.len() as int) == ch2);
                    assert forall|k: int| 0 <= k < chain.len() implies r[k] == chain[k] by {
                        assert(r.subrange(0, ch2.len() as int)[k] == ch2[k]);
                    }
                }
                assert(ext[0] == e) by {
                    assert(r.subrange(0, ch2.len() as int)[chain.len() as int] == ch2[chain.len() as int]);
                }
                assert(ext =~= seq![e] + ext2);
            } else if vend > end {
            } else {
                lemma_walk_nested(d, target, vend, end, chain);
            }
        } else if wire == 0 {
            let (_, ni, _) = spec_read_varint(d, after_tag as int)->Some_0;
            lemma_walk_nested(d, target, ni as int, end, chain);
        } else if wire == 5 || wire == 1 {
            let ni = after_tag + if wire == 5 {
                4int
            } else {
                8int
            };
            lemma_walk_nested(d, target, ni, end, chain);
        }
    }
}

/// `d` holds the minimal varint encoding of `v` at `i`.
pub open spec fn varint_at(d: Seq<u8>, i: int, v: u64) -> bool {
    &&& 0 <= i
    &&& i + varint_encode(v as nat).len() <= d.len()
    &&& d.subrange(i, i + varint_encode(v as nat).len()) == varint_encode(v as nat)
}

/// Width in bytes of the minimal varint encoding of `v`.
pub open spec fn varint_width(v: u64) -> int {
    varint_encode(v as nat).len() as int
}

/// The walk stops at the target: reaching the target's tag inside the
/// container being walked, the answer is the chain entered so far.
pub proof fn lemma_walk_at_target(d: Seq<u8>, target: int, end: int, chain: Seq<Container>, key: u64)
    requires
        d.len() <= usize::MAX,
        varint_at(d, target, key),
        target < end,
    ensures
        walk(d, target, target, end, chain) == Ok::<Seq<Container>, WalkFailure>(chain),
{
    lemma_varint_roundtrip(key, d, target);
}

/// The walk does not stop at a field that is not the target: a fixed32
/// field (wire type 5) takes exactly four bytes after its tag `key`, and the
/// walk goes on right after them.
pub proof fn lemma_walk_skips_fixed32(d: Seq<u8>, target: int, i: int, end: int, chain: Seq<Container>, key: u64)
    requires
        d.len() <= usize::MAX,
        i != target,
        key % 8 == 5,
        varint_at(d, i, key),
        i + varint_width(key) + 4 <= end,
    ensures
        walk(d, target, i, end, chain) == walk(d, target, i + varint_width(key) + 4, end, chain),
{
    lemma_varint_roundtrip(key, d, i);
}

/// A fixed64 field (wire type 1) takes exactly eight bytes after its tag
/// `key`, and the walk goes on right after them.
pub proof fn lemma_walk_skips_fixed64(d: Seq<u8>, target: int, i: int, end: int, chain: Seq<Container>, key: u64)
    requires
        d.len() <= usize::MAX,
        i != target,
        key % 8 == 1,
        varint_at(d, i, key),
        i + varint_width(key) + 8 <= end,
    ensures
        walk(d, target, i, end, chain) == walk(d, target, i + varint_width(key) + 8, end, chain),
{
    lemma_varint_roundtrip(key, d, i);
}

/// A varint field (wire type 0) with value `x` is skipped whole: the walk
/// goes on right after the value's bytes.
pub proof fn lemma_walk_skips_varint(d: Seq<u8>, target: int, i: int, end: int, chain: Seq<Container>, key: u64, x: u64)
    requires
        d.len() <= usize::MAX,
        i != target,
        key % 8 == 0,
        varint_at(d, i, key),
        varint_at(d, i + varint_width(key), x),
        i + varint_width(key) + varint_width(x) <= end,
    ensures
        walk(d, target, i, end, chain) == walk(d, target, i + varint_width(key) + varint_width(x), end, chain),
{
    lemma_varint_roundtrip(key, d, i);
    lemma_varint_roundtrip(x, d, i + varint_width(key));
}

/// A length-delimited field (wire type 2) of `len` bytes is skipped whole
/// when its value does not hold the target, and entered when it does: the
/// container (offset of its length prefix, `len`, width of the prefix)
/// joins the chain and the walk goes on inside its value.
pub proof fn lemma_walk_length_delimited(d: Seq<u8>, target: int, i: int, end: int, chain: Seq<Container>, key: u64, len: u64)
    requires
        d.len() <= usize::MAX,
        i != target,
        key % 8 == 2,
        varint_at(d, i, key),
        varint_at(d, i + varint_width(key), len),
        i + varint_width(key) + varint_width(len) + len <= end,
    ensures
        ({
            let prefix = i + varint_width(key);
            let vstart = prefix + varint_width(len);
            let vend = vstart + len;
            &&& (vstart <= target < vend) ==> walk(d, target, i, end, chain) == walk(
                d,
                target,
                vstart,
                vend,
                chain.push((prefix as usize, len, varint_width(len) as usize)),
            )
            &&& !(vstart <= target < vend) ==> walk(d, target, i, end, chain) == walk(d, target, vend, end, chain)
        }),
{
    lemma_varint_roundtrip(key, d, i);
    lemma_varint_roundtrip(len, d, i + varint_width(key));
}

/// A top-level fixed32 field is four bytes long, so a length-delimited
/// field right after it whose value holds the target is the outermost
/// container of the chain: the walk to the target enters it.
pub proof fn lemma_chain_after_fixed32(d: Seq<u8>, target: int, key5: u64, key2: u64, len: u64)
    requires
        d.len() <= usize::MAX,
        key5 % 8 == 5,
        key2 % 8 == 2,
        varint_at(d, 0, key5),
        varint_at(d, varint_width(key5) + 4, key2),
        varint_at(d, varint_width(key5) + 4 + varint_width(key2), len),
        ({
            let vstart = varint_width(key5) + 4 + varint_width(key2) + varint_width(len);
            vstart <= target < vstart + len <= d.len()
        }),
    ensures
        ({
            let prefix = varint_width(key5) + 4 + varint_width(key2);
            let vstart = prefix + varint_width(len);
            let c: Container = (prefix as usize, len, varint_width(len) as usize);
            &&& spec_ancestor_chain(d, target) == walk(d, target, vstart, vstart + len, seq![c])
            &&& spec_ancestor_chain(d, target) is Ok ==> spec_ancestor_chain(d, target)->Ok_0[0] == c
        }),
{
    let a = varint_width(key5) + 4;
    let prefix = a + varint_width(key2);
    let vstart = prefix + varint_width(len);
    let c: Container = (prefix as usize, len, varint_width(len) as usize);
    let n = d.len() as int;
    lemma_walk_skips_fixed32(d, target, 0, n, Seq::empty(), key5);
    lemma_walk_length_delimited(d, target, a, n, Seq::empty(), key2, len);
    assert(Seq::<Container>::empty().push(c) =~= seq![c]);
    if spec_ancestor_chain(d, target) is Ok {
        lemma_walk_nested(d, target, vstart, vstart + len, seq![c]);
        let r = spec_ancestor_chain(d, target)->Ok_0;
        assert(r.subrange(0, 1)[0] == r[0]);
    }
}

impl SaveFile {
    /// Walk the protobuf tree from the root and return the chain of
    /// length-delimited containers (innermost last) whose value range contains
    /// `target`, the offset of a field's tag. Each item is
    /// (len_prefix_offset, length_value, len_prefix_byte_len).
    pub fn ancestor_chain(&self, target: usize) -> (res: Result<Vec<Container>, Error>)
        ensures
            match spec_ancestor_chain(self.decompressed@, target as int) {
                Ok(c) => res matches Ok(v) && v@ == c,
                Err(f) => res matches Err(e) && reports_walk(e, f),
            },
            res matches Ok(v) ==> nested_around(v@, 0, target as int) && target < self.decompressed@.len(),
    {
        let d = self.decompressed.as_slice();
        let len = d.len();
        let mut chain: Vec<Container> = Vec::new();
        let mut i: u128 = 0;
        let mut end: u128 = len as u128;
        loop
            invariant
                len == d@.len(),
                d@ == self.decompressed@,
                i <= 0x4_0000_0000_0000_0000,
                end <= 0x4_0000_0000_0000_0000,
                walk(d@, target as int, i as int, end as int, chain@) == spec_ancestor_chain(
                    d@,
                    target as int,
                ),
            decreases (if i < len {
                len - i
            } else {
                0
            }),
        {
            if i >= end {
                return Err(Error::ParseError(String::from_str("target field not reachable by parse")));
            }
            if i >= len as u128 {
                return Err(Error::ParseError(join2("bad tag @0x", hex_string(i).as_str())));
            }
            let iu = i as usize;
            let (tag, after_tag, _) = match read_varint(d, iu) {
                None => {
                    return Err(Error::ParseError(join2("bad tag @0x", hex_string(i).as_str())));
                },
                Some(r) => r,
            };
            proof {
                lemma_read_varint_bounds(d@, i as int);
            }
            if iu == target {
                proof {
                    let d0 = self.decompressed@;
                    lemma_walk_nested(d0, target as int, 0, d0.len() as int, Seq::empty());
                    assert(chain@.subrange(0, chain@.len() as int) =~= chain@);
                }
                return Ok(chain);
            }
            let wire = tag & 7;
            proof {
                assert(tag & 7 == tag % 8) by (bit_vector);
                lemma_read_varint_bounds(d@, after_tag as int);
            }
            let next: u128;
            if wire == 0 {
                match read_varint(d, after_tag) {
                    None => {
                        return Err(
                            Error::ParseError(
                                join2("bad varint @0x", hex_string(after_tag as u128).as_str()),
                            ),
                        );
                    },
                    Some((_, ni, _)) => {
                        next = ni as u128;
                    },
                }
            } else if wire == 2 {
                match read_varint(d, after_tag) {
                    None => {
                        return Err(
                            Error::ParseError(
                                join2("bad len @0x", hex_string(after_tag as u128).as_str()),
                            ),
                        );
                    },
                    Some((ln, vstart, lblen)) => {
                        proof {
                            lemma_read_varint_bounds(d@, after_tag as int);
                        }
                        let vend: u128 = vstart as u128 + ln as u128;
                        if vstart <= target && (target as u128) < vend {
                            chain.push((vstart - lblen, ln, lblen));
                            i = vstart as u128;
                            end = vend;
                            continue ;
                        }
                        next = vend;
                    },
                }
            } else if wire == 5 {
                next = after_tag as u128 + 4;
            } else if wire == 1 {
                next = after_tag as u128 + 8;
            } else {
                let msg = join3(
                    "unsupported wire ",
                    decimal_string(wire).as_str(),
                    join2(" @0x", hex_string(i).as_str()).as_str(),
                );
                proof {
                    assert(msg@ =~= "unsupported wire "@ + decimal_chars(wire as nat) + " @0x"@
                        + hex_chars(i as nat));
                }
                return Err(Error::ParseError(msg));
            }
            if next > end {
                return Err(Error::ParseError(join2("overran container @0x", hex_string(next).as_str())));
            }
            i = next;
        }
    }
}

} // verus!
