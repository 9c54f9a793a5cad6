//! The structure of a flattened devicetree blob: its header, and the nesting of its nodes and
//! properties in the structure block. A blob of this structure is one that the devicetree
//! reader walks without running past a block or a string.
use vstd::prelude::*;

verus! {

/// The big-endian 32-bit word at byte `p`.
pub open spec fn be32(b: Seq<u8>, p: int) -> u32 {
    ((b[p] as u32) << 24u32) | ((b[p + 1] as u32) << 16u32) | ((b[p + 2] as u32) << 8u32) | (
    b[p + 3] as u32)
}

/// The word at byte `p`, if it lies below `hi` (and `hi` within the blob).
pub open spec fn word_at(b: Seq<u8>, p: int, hi: int) -> Option<u32> {
    if 0 <= p && p + 4 <= hi && hi <= b.len() {
        Some(be32(b, p))
    } else {
        None
    }
}

/// `n` rounded up to a multiple of four.
pub open spec fn align4(n: int) -> int {
    (n + 3) / 4 * 4
}

/// The position of the NUL byte that ends the string at `p`, if one comes before `hi` and every
/// byte before it is ASCII.
pub open spec fn cstr_end(b: Seq<u8>, p: int, hi: int) -> Option<int>
    decreases hi - p,
{
    if p < 0 || p >= hi || hi > b.len() {
        None
    } else if b[p] == 0 {
        Some(p)
    } else if b[p] >= 0x80 {
        None
    } else {
        cstr_end(b, p + 1, hi)
    }
}

/// The first position at or after `p` that is not a no-op token.
pub open spec fn nops_end(b: Seq<u8>, p: int, hi: int) -> int
    decreases hi - p,
{
    if word_at(b, p, hi) == Some(4u32) {
        nops_end(b, p + 4, hi)
    } else {
        p
    }
}

/// The name of a property, at offset `off` of the strings block from `slo` up to `shi`, is a
/// string ending within the block; it does not start with `/`, and a name starting with `#`
/// (a cell count) has a value of at least one cell.
pub open spec fn prop_name_ok(b: Seq<u8>, slo: int, shi: int, off: int, len: int) -> bool {
    &&& 0 <= off
    &&& slo + off < shi
    &&& cstr_end(b, slo + off, shi) is Some
    &&& b[slo + off] != 0x2f
    &&& (b[slo + off] == 0x23 ==> len >= 4)
}

/// The position after the properties that start at `p`, or `None` if one of them is cut off or
/// badly named.
pub open spec fn props_end(b: Seq<u8>, slo: int, shi: int, p: int, hi: int) -> Option<int>
    decreases hi - p,
{
    if word_at(b, p, hi) == Some(3u32) {
        if p + 12 > hi {
            None
        } else {
            let len = be32(b, p + 4) as int;
            let off = be32(b, p + 8) as int;
            let np = p + 12 + align4(len);
            if np > hi || !prop_name_ok(b, slo, shi, off, len) {
                None
            } else {
                props_end(b, slo, shi, np, hi)
            }
        }
    } else {
        Some(p)
    }
}

/// The position after the node that starts at `p`: its begin token, its name, its properties,
/// its children, no-op tokens, and its end token. `None` if the node is not of that shape, or
/// nests more than 32 levels deep.
pub open spec fn node_end(b: Seq<u8>, slo: int, shi: int, p: int, hi: int, depth: int) -> Option<
    int,
>
    decreases hi - p, 0int,
{
    if depth > 32 || word_at(b, p, hi) != Some(1u32) {
        None
    } else {
        match cstr_end(b, p + 4, hi) {
            None => None,
            Some(e) => {
                let q = p + 4 + align4(e - (p + 4) + 1);
                if q <= p || q > hi {
                    None
                } else {
                    match props_end(b, slo, shi, q, hi) {
                        None => None,
                        Some(r) => if r < q || r > hi {
                            None
                        } else {
                            match children_end(b, slo, shi, r, hi, depth + 1) {
                                None => None,
                                Some(c) => {
                                    let n = nops_end(b, c, hi);
                                    if word_at(b, n, hi) == Some(2u32) {
                                        Some(n + 4)
                                    } else {
                                        None
                                    }
                                },
                            }
                        },
                    }
                }
            },
        }
    }
}

/// The position after the child nodes that start at `q`.
pub open spec fn children_end(b: Seq<u8>, slo: int, shi: int, q: int, hi: int, depth: int) -> Option<
    int,
>
    decreases hi - q, 1int,
{
    if word_at(b, q, hi) == Some(1u32) {
        match node_end(b, slo, shi, q, hi, depth) {
            None => None,
            Some(e) => if e <= q || e > hi {
                None
            } else {
                children_end(b, slo, shi, e, hi, depth)
            },
        }
    } else {
        Some(q)
    }
}

/// The header word with index `i`.
pub open spec fn hdr(b: Seq<u8>, i: int) -> int {
    be32(b, 4 * i) as int
}

/// The structure block holds one root node, between no-op tokens, followed by the end token.
pub open spec fn struct_ok(b: Seq<u8>) -> bool {
    let lo = hdr(b, 2);
    let hi = lo + hdr(b, 9);
    let slo = hdr(b, 3);
    let shi = slo + hdr(b, 8);
    match node_end(b, slo, shi, nops_end(b, lo, hi), hi, 0) {
        None => false,
        Some(e) => word_at(b, nops_end(b, e, hi), hi) == Some(9u32),
    }
}

/// A blob with a whole header, the devicetree magic number, a total size, a memory reservation
/// offset and structure and strings blocks that lie within it, and a structure block of the
/// shape [`struct_ok`] describes.
pub open spec fn blob_ok(b: Seq<u8>) -> bool {
    &&& b.len() >= 40
    &&& hdr(b, 0) == 0xd00dfeed
    &&& hdr(b, 1) <= b.len()
    &&& hdr(b, 4) <= b.len()
    &&& hdr(b, 2) + hdr(b, 9) <= b.len()
    &&& hdr(b, 3) + hdr(b, 8) <= b.len()
    &&& struct_ok(b)
}

/// A position found, as a mathematical integer.
pub open spec fn found(r: Option<u64>) -> Option<int> {
    match r {
        Some(x) => Some(x as int),
        None => None,
    }
}

pub(crate) fn word(blob: &[u8], p: u64, hi: u64) -> (r: Option<u32>)
    requires
        hi <= blob@.len(),
    ensures
        r == word_at(blob@, p as int, hi as int),
{
    if p <= hi && hi - p >= 4 {
        let i = p as usize;
        Some(((blob[i] as u32) << 24u32) | ((blob[i + 1] as u32) << 16u32) | ((blob[i + 2] as u32)
            << 8u32) | (blob[i + 3] as u32))
    } else {
        None
    }
}

pub(crate) fn cstr_end_at(blob: &[u8], p: u64, hi: u64) -> (r: Option<u64>)
    requires
        hi <= blob@.len(),
    ensures
        found(r) == cstr_end(blob@, p as int, hi as int),
        r matches Some(x) ==> p <= x < hi,
{
    let mut i = p;
    while i < hi
        invariant
            p <= i,
            hi <= blob@.len(),
            cstr_end(blob@, p as int, hi as int) == cstr_end(blob@, i as int, hi as int),
        decreases hi - i,
    {
        let c = blob[i as usize];
        if c == 0 {
            return Some(i);
        }
        if c >= 0x80 {
            return None;
        }
        i = i + 1;
    }
    None
}

pub(crate) fn nops_end_at(blob: &[u8], p: u64, hi: u64) -> (r: u64)
    requires
        hi <= blob@.len(),
        p <= hi,
    ensures
        r == nops_end(blob@, p as int, hi as int),
        p <= r <= hi,
{
    let mut i = p;
    while word(blob, i, hi) == Some(4u32)
        invariant
            p <= i <= hi,
            hi <= blob@.len(),
            nops_end(blob@, p as int, hi as int) == nops_end(blob@, i as int, hi as int),
        decreases hi - i,
    {
        i = i + 4;
    }
    i
}

fn prop_name_ok_at(blob: &[u8], slo: u64, shi: u64, off: u64, len: u64) -> (r: bool)
    requires
        shi <= blob@.len(),
        slo <= u32::MAX,
        off <= u32::MAX,
    ensures
        r == prop_name_ok(blob@, slo as int, shi as int, off as int, len as int),
{
    let s = slo + off;
    if s >= shi {
        return false;
    }
    if cstr_end_at(blob, s, shi).is_none() {
        return false;
    }
    let c = blob[s as usize];
    c != 0x2f && (c != 0x23 || len >= 4)
}

pub(crate) fn props_end_at(blob: &[u8], slo: u64, shi: u64, p: u64, hi: u64) -> (r: Option<u64>)
    requires
        hi <= blob@.len(),
        shi <= blob@.len(),
        slo <= u32::MAX,
        p <= hi,
    ensures
        found(r) == props_end(blob@, slo as int, shi as int, p as int, hi as int),
        r matches Some(x) ==> p <= x <= hi,
{
    let mut i = p;
    loop
        invariant
            p <= i <= hi,
            hi <= blob@.len(),
            shi <= blob@.len(),
            slo <= u32::MAX,
            props_end(blob@, slo as int, shi as int, p as int, hi as int) == props_end(
                blob@,
                slo as int,
                shi as int,
                i as int,
                hi as int,
            ),
        decreases hi - i,
    {
        if word(blob, i, hi) != Some(3u32) {
            return Some(i);
        }
        if hi - i < 12 {
            return None;
        }
        let len = word(blob, i + 4, hi).unwrap() as u64;
        let off = word(blob, i + 8, hi).unwrap() as u64;
        let step = (len + 3) / 4 * 4;
        if step > hi - i - 12 {
            return None;
        }
        if !prop_name_ok_at(blob, slo, shi, off, len) {
            return None;
        }
        i = i + 12 + step;
    }
}

pub(crate) fn node_end_at(blob: &[u8], slo: u64, shi: u64, p: u64, hi: u64, depth: u64) -> (r: Option<u64>)
    requires
        hi <= blob@.len(),
        shi <= blob@.len(),
        slo <= u32::MAX,
        depth <= 33,
        hi <= 0x2_0000_0000,
    ensures
        found(r) == node_end(blob@, slo as int, shi as int, p as int, hi as int, depth as int),
        r matches Some(x) ==> p < x <= hi,
    decreases hi - p, 0int,
{
    if depth > 32 || word(blob, p, hi) != Some(1u32) {
        return None;
    }
    let e = match cstr_end_at(blob, p + 4, hi) {
        None => {
            return None;
        },
        Some(e) => e,
    };
    let q = p + 4 + (e - (p + 4) + 1 + 3) / 4 * 4;
    if q <= p || q > hi {
        return None;
    }
    let r = match props_end_at(blob, slo, shi, q, hi) {
        None => {
            return None;
        },
        Some(r) => r,
    };
    let c = match children_end_at(blob, slo, shi, r, hi, depth + 1) {
        None => {
            return None;
        },
        Some(c) => c,
    };
    let n = nops_end_at(blob, c, hi);
    if word(blob, n, hi) == Some(2u32) {
        Some(n + 4)
    } else {
        None
    }
}

fn children_end_at(blob: &[u8], slo: u64, shi: u64, q: u64, hi: u64, depth: u64) -> (r: Option<
    u64,
>)
    requires
        hi <= blob@.len(),
        shi <= blob@.len(),
        slo <= u32::MAX,
        depth <= 33,
        q <= hi,
        hi <= 0x2_0000_0000,
    ensures
        found(r) == children_end(blob@, slo as int, shi as int, q as int, hi as int, depth as int),
        r matches Some(x) ==> q <= x <= hi,
    decreases hi - q, 1int,
{
    if word(blob, q, hi) != Some(1u32) {
        return Some(q);
    }
    match node_end_at(blob, slo, shi, q, hi, depth) {
        None => None,
        Some(e) => children_end_at(blob, slo, shi, e, hi, depth),
    }
}

/// Checks that `blob` is a devicetree blob of the structure that [`blob_ok`] describes.
pub fn check_blob(blob: &[u8]) -> (r: bool)
    ensures
        r == blob_ok(blob@),
{
    let n = blob.len() as u64;
    if n < 40 {
        return false;
    }
    let magic = word(blob, 0, n).unwrap() as u64;
    let total = word(blob, 4, n).unwrap() as u64;
    let lo = word(blob, 8, n).unwrap() as u64;
    let slo = word(blob, 12, n).unwrap() as u64;
    let rsv = word(blob, 16, n).unwrap() as u64;
    let ssize = word(blob, 32, n).unwrap() as u64;
    let size = word(blob, 36, n).unwrap() as u64;
    if magic != 0xd00dfeed || total > n || rsv > n || lo + size > n || slo + ssize > n {
        return false;
    }
    let hi = lo + size;
    let shi = slo + ssize;
    let n0 = nops_end_at(blob, lo, hi);
    match node_end_at(blob, slo, shi, n0, hi, 0) {
        None => false,
        Some(e) => {
            let n1 = nops_end_at(blob, e, hi);
            word(blob, n1, hi) == Some(9u32)
        },
    }
}

} // verus!
