//! The `/cpus` node of a devicetree blob: where it is, and whether each `cpu` node under it
//! has the IDs and the timebase frequency that reading it takes.
use vstd::prelude::*;

use crate::blob::{
    align4, be32, blob_ok, cstr_end, cstr_end_at, hdr, node_end, node_end_at, nops_end, nops_end_at,
    props_end, props_end_at, word, word_at,
};

verus! {

/// The bytes from `p` on are `lit`.
pub open spec fn bytes_are(b: Seq<u8>, p: int, lit: Seq<u8>) -> bool {
    0 <= p && p + lit.len() <= b.len() && b.subrange(p, p + lit.len()) == lit
}

/// The string at `s` is `lit`.
pub open spec fn str_is(b: Seq<u8>, s: int, lit: Seq<u8>) -> bool {
    bytes_are(b, s, lit) && s + lit.len() < b.len() && b[s + lit.len()] == 0
}

/// The node name at `p`, up to its `@` or its end, is `lit`.
pub open spec fn base_is(b: Seq<u8>, p: int, lit: Seq<u8>) -> bool {
    bytes_are(b, p, lit) && p + lit.len() < b.len() && (b[p + lit.len()] == 0 || b[p
        + lit.len()] == 0x40)
}

/// `cpus`.
pub open spec fn cpus_name() -> Seq<u8> {
    seq![0x63u8, 0x70u8, 0x75u8, 0x73u8]
}

/// `cpu`.
pub open spec fn cpu_name() -> Seq<u8> {
    seq![0x63u8, 0x70u8, 0x75u8]
}

/// `reg`.
pub open spec fn reg_name() -> Seq<u8> {
    seq![0x72u8, 0x65u8, 0x67u8]
}

/// `timebase-frequency`.
pub open spec fn timebase_name() -> Seq<u8> {
    seq![
        0x74u8,
        0x69u8,
        0x6du8,
        0x65u8,
        0x62u8,
        0x61u8,
        0x73u8,
        0x65u8,
        0x2du8,
        0x66u8,
        0x72u8,
        0x65u8,
        0x71u8,
        0x75u8,
        0x65u8,
        0x6eu8,
        0x63u8,
        0x79u8,
    ]
}

/// `#address-cells`.
pub open spec fn address_cells_name() -> Seq<u8> {
    seq![
        0x23u8,
        0x61u8,
        0x64u8,
        0x64u8,
        0x72u8,
        0x65u8,
        0x73u8,
        0x73u8,
        0x2du8,
        0x63u8,
        0x65u8,
        0x6cu8,
        0x6cu8,
        0x73u8,
    ]
}

/// Where the properties of the node at `p` start, past its name.
pub open spec fn props_start(b: Seq<u8>, p: int, hi: int) -> int {
    match cstr_end(b, p + 4, hi) {
        Some(e) => p + 4 + align4(e - (p + 4) + 1),
        None => -1,
    }
}

/// The value (start, length) of the first property from `p` on named `name`, among the
/// properties that follow one another there.
pub open spec fn find_prop(b: Seq<u8>, slo: int, p: int, hi: int, name: Seq<u8>) -> Option<(int, int)>
    decreases hi - p,
{
    if word_at(b, p, hi) == Some(3u32) && p + 12 <= hi {
        let len = be32(b, p + 4) as int;
        let np = p + 12 + align4(len);
        if str_is(b, slo + be32(b, p + 8) as int, name) {
            Some((p + 12, len))
        } else if np > hi || np <= p {
            None
        } else {
            find_prop(b, slo, np, hi, name)
        }
    } else {
        None
    }
}

/// The value of the last property from `p` on named `name`, read as one cell, or `cur` where
/// there is none.
pub open spec fn last_cell(b: Seq<u8>, slo: int, p: int, hi: int, name: Seq<u8>, cur: int) -> int
    decreases hi - p,
{
    if word_at(b, p, hi) == Some(3u32) && p + 12 <= hi {
        let len = be32(b, p + 4) as int;
        let np = p + 12 + align4(len);
        let next = if str_is(b, slo + be32(b, p + 8) as int, name) && p + 16 <= b.len() {
            be32(b, p + 12) as int
        } else {
            cur
        };
        if np > hi || np <= p {
            next
        } else {
            last_cell(b, slo, np, hi, name, next)
        }
    } else {
        cur
    }
}

/// The first child node from `c` on whose name is `lit` up to its `@`.
pub open spec fn find_child(b: Seq<u8>, slo: int, shi: int, c: int, hi: int, lit: Seq<u8>, depth: int) -> Option<int>
    decreases hi - c,
{
    if word_at(b, c, hi) == Some(1u32) {
        if base_is(b, c + 4, lit) {
            Some(c)
        } else {
            match node_end(b, slo, shi, c, hi, depth) {
                Some(e) => if e <= c || e > hi {
                    None
                } else {
                    find_child(b, slo, shi, e, hi, lit, depth)
                },
                None => None,
            }
        }
    } else {
        None
    }
}

/// The `cpu` node at `c` has `reg` (in cells of one or two words, where it lists any ID, as
/// `ac` says) and a `timebase-frequency` of one or two cells, its own or that of `/cpus`,
/// whose properties start at `qp`.
pub open spec fn cpu_ok(b: Seq<u8>, slo: int, qp: int, c: int, hi: int, ac: int) -> bool {
    let q = props_start(b, c, hi);
    &&& find_prop(b, slo, q, hi, reg_name()) matches Some((_, len)) && (len > 0 ==> ac == 1 || ac
        == 2)
    &&& match find_prop(b, slo, q, hi, timebase_name()) {
        Some((_, len)) => len == 4 || len == 8,
        None => find_prop(b, slo, qp, hi, timebase_name()) matches Some((_, len)) && (len == 4
            || len == 8),
    }
}

/// Every `cpu` node among the children from `c` on is as [`cpu_ok`] says.
pub open spec fn cpu_children_ok(b: Seq<u8>, slo: int, shi: int, qp: int, c: int, hi: int, ac: int) -> bool
    decreases hi - c,
{
    if word_at(b, c, hi) == Some(1u32) {
        &&& (base_is(b, c + 4, cpu_name()) ==> cpu_ok(b, slo, qp, c, hi, ac))
        &&& match node_end(b, slo, shi, c, hi, 2) {
            Some(e) => e > c && e <= hi && cpu_children_ok(b, slo, shi, qp, e, hi, ac),
            None => false,
        }
    } else {
        true
    }
}

/// The root node has an empty name, has a child `cpus`, and every `cpu` node under the first
/// such child is as [`cpu_ok`] says.
pub open spec fn cpus_ok(b: Seq<u8>) -> bool {
    let lo = hdr(b, 2);
    let hi = lo + hdr(b, 9);
    let slo = hdr(b, 3);
    let shi = slo + hdr(b, 8);
    let n0 = nops_end(b, lo, hi);
    &&& 0 <= n0 + 4 < b.len() && b[n0 + 4] == 0
    &&& 0 <= props_start(b, n0, hi) <= hi
    &&& match props_end(b, slo, shi, props_start(b, n0, hi), hi) {
        Some(r0) => match find_child(b, slo, shi, r0, hi, cpus_name(), 1) {
            Some(c) => {
                let q = props_start(b, c, hi);
                0 <= q <= hi && match props_end(b, slo, shi, q, hi) {
                    Some(r) => cpu_children_ok(
                        b,
                        slo,
                        shi,
                        q,
                        r,
                        hi,
                        last_cell(b, slo, q, hi, address_cells_name(), 2),
                    ),
                    None => false,
                }
            },
            None => false,
        },
        None => false,
    }
}

fn bytes_at(blob: &[u8], p: u64, lit: &Vec<u8>) -> (r: bool)
    ensures
        r == bytes_are(blob@, p as int, lit@),
{
    let n = blob.len() as u64;
    if p > n || n - p < lit.len() as u64 {
        return false;
    }
    let len_us: usize = blob.len();
    let mut i: usize = 0;
    while i < lit.len()
        invariant
            len_us == blob@.len(),
            i <= lit.len(),
            p + lit@.len() <= blob@.len(),
            p <= blob@.len(),
            forall|k: int| 0 <= k < i ==> blob@[p + k] == lit@[k],
        decreases lit.len() - i,
    {
        assert(p + i < blob@.len());
        assert(p <= usize::MAX);
        let pu = p as usize;
        assert(pu == p);
        let k = pu + i;
        if blob[k] != lit[i] {
            assert(blob@.subrange(p as int, p + lit@.len())[i as int] != lit@[i as int]);
            return false;
        }
        i = i + 1;
    }
    assert(blob@.subrange(p as int, p + lit@.len()) =~= lit@);
    true
}

fn str_at(blob: &[u8], s: u64, lit: &Vec<u8>) -> (r: bool)
    requires
        s <= 0x4_0000_0000,
        lit@.len() < 64,
    ensures
        r == str_is(blob@, s as int, lit@),
{
    bytes_at(blob, s, lit) && s + (lit.len() as u64) < blob.len() as u64 && blob[(s
        + lit.len() as u64) as usize] == 0
}

fn base_at(blob: &[u8], p: u64, lit: &Vec<u8>) -> (r: bool)
    requires
        p <= 0x4_0000_0000,
        lit@.len() < 64,
    ensures
        r == base_is(blob@, p as int, lit@),
{
    if !bytes_at(blob, p, lit) {
        return false;
    }
    let k = p + lit.len() as u64;
    if k >= blob.len() as u64 {
        return false;
    }
    blob[k as usize] == 0 || blob[k as usize] == 0x40
}

fn props_start_at(blob: &[u8], p: u64, hi: u64) -> (r: Option<u64>)
    requires
        hi <= blob@.len(),
        hi <= 0x2_0000_0000,
        p <= hi,
    ensures
        match r {
            Some(x) => x as int == props_start(blob@, p as int, hi as int) && x <= hi,
            None => props_start(blob@, p as int, hi as int) < 0 || props_start(
                blob@,
                p as int,
                hi as int,
            ) > hi,
        },
{
    if hi - p < 4 {
        return None;
    }
    match cstr_end_at(blob, p + 4, hi) {
        None => None,
        Some(e) => {
            let q = p + 4 + (e - (p + 4) + 1 + 3) / 4 * 4;
            if q > hi {
                None
            } else {
                Some(q)
            }
        },
    }
}

fn find_prop_at(blob: &[u8], slo: u64, p: u64, hi: u64, name: &Vec<u8>) -> (r: Option<(u64, u64)>)
    requires
        hi <= blob@.len(),
        hi <= 0x2_0000_0000,
        slo <= u32::MAX,
        p <= hi,
        name@.len() < 64,
    ensures
        match r {
            Some((s, l)) => find_prop(blob@, slo as int, p as int, hi as int, name@) == Some(
                (s as int, l as int),
            ),
            None => find_prop(blob@, slo as int, p as int, hi as int, name@) is None,
        },
{
    let mut i = p;
    loop
        invariant
            p <= i <= hi,
            hi <= blob@.len(),
            hi <= 0x2_0000_0000,
            slo <= u32::MAX,
            name@.len() < 64,
            find_prop(blob@, slo as int, p as int, hi as int, name@) == find_prop(
                blob@,
                slo as int,
                i as int,
                hi as int,
                name@,
            ),
        decreases hi - i,
    {
        if word(blob, i, hi) != Some(3u32) || hi - i < 12 {
            return None;
        }
        let len = word(blob, i + 4, hi).unwrap() as u64;
        let off = word(blob, i + 8, hi).unwrap() as u64;
        if str_at(blob, slo + off, name) {
            return Some((i + 12, len));
        }
        let step = (len + 3) / 4 * 4;
        if step > hi - i - 12 {
            return None;
        }
        i = i + 12 + step;
    }
}

fn last_cell_at(blob: &[u8], slo: u64, p: u64, hi: u64, name: &Vec<u8>, cur: u64) -> (r: u64)
    requires
        hi <= blob@.len(),
        hi <= 0x2_0000_0000,
        slo <= u32::MAX,
        p <= hi,
        name@.len() < 64,
        cur <= u32::MAX,
    ensures
        r as int == last_cell(blob@, slo as int, p as int, hi as int, name@, cur as int),
{
    let mut i = p;
    let mut c = cur;
    loop
        invariant
            p <= i <= hi,
            hi <= blob@.len(),
            hi <= 0x2_0000_0000,
            slo <= u32::MAX,
            name@.len() < 64,
            c <= u32::MAX,
            last_cell(blob@, slo as int, p as int, hi as int, name@, cur as int) == last_cell(
                blob@,
                slo as int,
                i as int,
                hi as int,
                name@,
                c as int,
            ),
        decreases hi - i,
    {
        if word(blob, i, hi) != Some(3u32) || hi - i < 12 {
            return c;
        }
        let len = word(blob, i + 4, hi).unwrap() as u64;
        let off = word(blob, i + 8, hi).unwrap() as u64;
        if str_at(blob, slo + off, name) && i + 16 <= blob.len() as u64 {
            c = word(blob, i + 12, blob.len() as u64).unwrap() as u64;
        }
        let step = (len + 3) / 4 * 4;
        if step > hi - i - 12 {
            return c;
        }
        i = i + 12 + step;
    }
}

fn find_child_at(blob: &[u8], slo: u64, shi: u64, c: u64, hi: u64, lit: &Vec<u8>, depth: u64) -> (r:
    Option<u64>)
    requires
        hi <= blob@.len(),
        shi <= blob@.len(),
        hi <= 0x2_0000_0000,
        slo <= u32::MAX,
        c <= hi,
        depth <= 33,
        lit@.len() < 64,
    ensures
        match r {
            Some(x) => find_child(blob@, slo as int, shi as int, c as int, hi as int, lit@, depth as int)
                == Some(x as int) && x <= hi,
            None => find_child(blob@, slo as int, shi as int, c as int, hi as int, lit@, depth as int)
                is None,
        },
{
    let mut i = c;
    loop
        invariant
            c <= i <= hi,
            hi <= blob@.len(),
            shi <= blob@.len(),
            hi <= 0x2_0000_0000,
            slo <= u32::MAX,
            depth <= 33,
            lit@.len() < 64,
            find_child(blob@, slo as int, shi as int, c as int, hi as int, lit@, depth as int)
                == find_child(blob@, slo as int, shi as int, i as int, hi as int, lit@, depth as int),
        decreases hi - i,
    {
        if word(blob, i, hi) != Some(1u32) {
            return None;
        }
        if base_at(blob, i + 4, lit) {
            return Some(i);
        }
        match node_end_at(blob, slo, shi, i, hi, depth) {
            None => {
                return None;
            },
            Some(e) => {
                i = e;
            },
        }
    }
}

fn cpu_ok_at(blob: &[u8], slo: u64, qp: u64, c: u64, hi: u64, ac: u64) -> (r: bool)
    requires
        hi <= blob@.len(),
        hi <= 0x2_0000_0000,
        slo <= u32::MAX,
        c <= hi,
        qp <= hi,
    ensures
        r == cpu_ok(blob@, slo as int, qp as int, c as int, hi as int, ac as int),
{
    let reg = vec![0x72u8, 0x65u8, 0x67u8];
    let tbf = vec![
        0x74u8,
        0x69u8,
        0x6du8,
        0x65u8,
        0x62u8,
        0x61u8,
        0x73u8,
        0x65u8,
        0x2du8,
        0x66u8,
        0x72u8,
        0x65u8,
        0x71u8,
        0x75u8,
        0x65u8,
        0x6eu8,
        0x63u8,
        0x79u8,
    ];
    proof {
        assert(reg@ =~= reg_name());
        assert(tbf@ =~= timebase_name());
    }
    let q = match props_start_at(blob, c, hi) {
        Some(q) => q,
        None => {
            assert(find_prop(blob@, slo as int, props_start(blob@, c as int, hi as int), hi as int, reg_name()) is None);
            return false;
        },
    };
    let reg_ok = match find_prop_at(blob, slo, q, hi, &reg) {
        Some((_, len)) => len == 0 || ac == 1 || ac == 2,
        None => false,
    };
    let tbf_ok = match find_prop_at(blob, slo, q, hi, &tbf) {
        Some((_, len)) => len == 4 || len == 8,
        None => match find_prop_at(blob, slo, qp, hi, &tbf) {
            Some((_, len)) => len == 4 || len == 8,
            None => false,
        },
    };
    reg_ok && tbf_ok
}

fn cpu_children_ok_at(blob: &[u8], slo: u64, shi: u64, qp: u64, c: u64, hi: u64, ac: u64) -> (r:
    bool)
    requires
        hi <= blob@.len(),
        shi <= blob@.len(),
        hi <= 0x2_0000_0000,
        slo <= u32::MAX,
        c <= hi,
        qp <= hi,
    ensures
        r == cpu_children_ok(blob@, slo as int, shi as int, qp as int, c as int, hi as int, ac as int),
{
    let cpu = vec![0x63u8, 0x70u8, 0x75u8];
    proof {
        assert(cpu@ =~= cpu_name());
    }
    let mut i = c;
    loop
        invariant
            c <= i <= hi,
            hi <= blob@.len(),
            shi <= blob@.len(),
            hi <= 0x2_0000_0000,
            slo <= u32::MAX,
            qp <= hi,
            cpu@ == cpu_name(),
            cpu_children_ok(blob@, slo as int, shi as int, qp as int, c as int, hi as int, ac as int)
                == cpu_children_ok(
                blob@,
                slo as int,
                shi as int,
                qp as int,
                i as int,
                hi as int,
                ac as int,
            ),
        decreases hi - i,
    {
        if word(blob, i, hi) != Some(1u32) {
            return true;
        }
        if base_at(blob, i + 4, &cpu) && !cpu_ok_at(blob, slo, qp, i, hi, ac) {
            return false;
        }
        match node_end_at(blob, slo, shi, i, hi, 2) {
            None => {
                return false;
            },
            Some(e) => {
                i = e;
            },
        }
    }
}

/// Checks that a devicetree blob of the structure [`blob_ok`] describes has the `/cpus` node
/// that [`cpus_ok`] describes.
pub fn check_cpus(blob: &[u8]) -> (r: bool)
    requires
        blob_ok(blob@),
    ensures
        r == cpus_ok(blob@),
{
    let n = blob.len() as u64;
    let lo = word(blob, 8, n).unwrap() as u64;
    let slo = word(blob, 12, n).unwrap() as u64;
    let ssize = word(blob, 32, n).unwrap() as u64;
    let size = word(blob, 36, n).unwrap() as u64;
    let hi = lo + size;
    let shi = slo + ssize;
    let n0 = nops_end_at(blob, lo, hi);
    if n0 + 4 >= n || blob[(n0 + 4) as usize] != 0 {
        return false;
    }
    let cpus = vec![0x63u8, 0x70u8, 0x75u8, 0x73u8];
    let ac_name = vec![
        0x23u8,
        0x61u8,
        0x64u8,
        0x64u8,
        0x72u8,
        0x65u8,
        0x73u8,
        0x73u8,
        0x2du8,
        0x63u8,
        0x65u8,
        0x6cu8,
        0x6cu8,
        0x73u8,
    ];
    proof {
        assert(cpus@ =~= cpus_name());
        assert(ac_name@ =~= address_cells_name());
    }
    let q0 = match props_start_at(blob, n0, hi) {
        Some(q) => q,
        None => {
            return false;
        },
    };
    let r0 = match props_end_at(blob, slo, shi, q0, hi) {
        Some(r) => r,
        None => {
            return false;
        },
    };
    let c = match find_child_at(blob, slo, shi, r0, hi, &cpus, 1) {
        Some(c) => c,
        None => {
            return false;
        },
    };
    let q = match props_start_at(blob, c, hi) {
        Some(q) => q,
        None => {
            return false;
        },
    };
    let r = match props_end_at(blob, slo, shi, q, hi) {
        Some(r) => r,
        None => {
            return false;
        },
    };
    let ac = last_cell_at(blob, slo, q, hi, &ac_name, 2);
    cpu_children_ok_at(blob, slo, shi, q, r, hi, ac)
}

} // verus!
