//! Walks through well-formed page tables: each table is reached by one path only, so two
//! walks from one table that end at the same leaf entry agree on every page number from the
//! leaf's level up.
use vstd::prelude::*;

use crate::addr::page_number;
use crate::paging::{
    cells_wf, follows, frame_index, lemma_slot_table, lemma_unmap_walk_leaf, slot, unmap_walk,
};
use crate::sv48::{pte_phys, size_at};

verus! {

/// The walk of `v` from table `t` at level index `l` reaches table `to` at level index `j`.
pub open spec fn visits(base: u64, n: int, m: Seq<u64>, t: int, v: u64, l: int, to: int, j: int) -> bool
    decreases l + 1,
{
    if t == to && l == j {
        true
    } else if l <= j || l < 0 || !(0 <= t < n) || slot(t, v, l) >= m.len() {
        false
    } else {
        let e = m[slot(t, v, l)];
        follows(e) && match frame_index(base, n, pte_phys(e)) {
            Some(nt) => visits(base, n, m, nt, v, l - 1, to, j),
            None => false,
        }
    }
}

/// Following an entry of table `t` leads to a table placed after it.
proof fn lemma_step_forward(base: u64, cap: int, m: Seq<u64>, x: int)
    requires
        cells_wf(base, cap, m),
        0 <= x < m.len(),
        follows(m[x]),
    ensures
        frame_index(base, m.len() as int / 512, pte_phys(m[x])) matches Some(nt) && nt > x / 512,
{
    reveal(cells_wf);
}

/// A walk only moves to tables placed later, and never up a level.
proof fn lemma_visits_order(base: u64, cap: int, m: Seq<u64>, t: int, v: u64, l: int, to: int, j: int)
    requires
        cells_wf(base, cap, m),
        visits(base, m.len() as int / 512, m, t, v, l, to, j),
    ensures
        t <= to,
        j <= l,
        t == to ==> l == j,
    decreases l + 1,
{
    let n = m.len() as int / 512;
    if !(t == to && l == j) {
        let x = slot(t, v, l);
        lemma_slot_table(t, v, l);
        lemma_step_forward(base, cap, m, x);
        let nt = frame_index(base, n, pte_phys(m[x]))->0;
        lemma_visits_order(base, cap, m, nt, v, l - 1, to, j);
    }
}

/// Two entries that point to one table are the same entry.
proof fn lemma_one_parent(base: u64, cap: int, m: Seq<u64>, q1: int, q2: int, to: int)
    requires
        cells_wf(base, cap, m),
        0 <= q1 < m.len(),
        0 <= q2 < m.len(),
        follows(m[q1]),
        follows(m[q2]),
        frame_index(base, m.len() as int / 512, pte_phys(m[q1])) == Some(to),
        frame_index(base, m.len() as int / 512, pte_phys(m[q2])) == Some(to),
    ensures
        q1 == q2,
{
    reveal(cells_wf);
    let p1 = pte_phys(m[q1]) as int - base;
    let p2 = pte_phys(m[q2]) as int - base;
    vstd::arithmetic::div_mod::lemma_fundamental_div_mod(p1, 0x1000);
    vstd::arithmetic::div_mod::lemma_fundamental_div_mod(p2, 0x1000);
    assert(pte_phys(m[q1]) == pte_phys(m[q2]));
}

/// A walk that reaches a table other than its first passes, just before, through the one entry
/// that points to that table.
proof fn lemma_visits_last_step(base: u64, cap: int, m: Seq<u64>, t: int, v: u64, l: int, to: int, j: int)
    requires
        cells_wf(base, cap, m),
        visits(base, m.len() as int / 512, m, t, v, l, to, j),
        t != to,
    ensures
        exists|q: int|
            #![trigger m[q]]
            0 <= q < m.len() && follows(m[q]) && frame_index(base, m.len() as int / 512, pte_phys(m[q]))
                == Some(to) && visits(base, m.len() as int / 512, m, t, v, l, q / 512, j + 1) && slot(
                q / 512,
                v,
                j + 1,
            ) == q,
    decreases l + 1,
{
    let n = m.len() as int / 512;
    lemma_visits_order(base, cap, m, t, v, l, to, j);
    let x = slot(t, v, l);
    lemma_slot_table(t, v, l);
    lemma_step_forward(base, cap, m, x);
    let nt = frame_index(base, n, pte_phys(m[x]))->0;
    if nt == to {
        lemma_visits_order(base, cap, m, nt, v, l - 1, to, j);
        assert(visits(base, n, m, t, v, l, x / 512, j + 1));
        assert(0 <= x < m.len() && follows(m[x]) && frame_index(base, n, pte_phys(m[x])) == Some(to)
            && visits(base, n, m, t, v, l, x / 512, j + 1) && slot(x / 512, v, j + 1) == x);
    } else {
        lemma_visits_last_step(base, cap, m, nt, v, l - 1, to, j);
        let q = choose|q: int|
            #![trigger m[q]]
            0 <= q < m.len() && follows(m[q]) && frame_index(base, n, pte_phys(m[q])) == Some(to)
                && visits(base, n, m, nt, v, l - 1, q / 512, j + 1) && slot(q / 512, v, j + 1) == q;
        lemma_visits_order(base, cap, m, nt, v, l - 1, q / 512, j + 1);
        assert(visits(base, n, m, t, v, l, q / 512, j + 1));
        assert(0 <= q < m.len() && follows(m[q]) && frame_index(base, n, pte_phys(m[q])) == Some(to)
            && visits(base, n, m, t, v, l, q / 512, j + 1) && slot(q / 512, v, j + 1) == q);
    }
}

/// Walks that leave a table through two different entries never meet again.
proof fn lemma_split_walks(
    base: u64,
    cap: int,
    m: Seq<u64>,
    xv: int,
    xw: int,
    v: u64,
    w: u64,
    l: int,
    to: int,
    j1: int,
    j2: int,
)
    requires
        cells_wf(base, cap, m),
        0 <= xv < m.len(),
        0 <= xw < m.len(),
        xv != xw,
        xv / 512 == xw / 512,
        follows(m[xv]),
        follows(m[xw]),
        0 <= to,
    ensures
        !(visits(
            base,
            m.len() as int / 512,
            m,
            frame_index(base, m.len() as int / 512, pte_phys(m[xv]))->0,
            v,
            l,
            to,
            j1,
        ) && visits(
            base,
            m.len() as int / 512,
            m,
            frame_index(base, m.len() as int / 512, pte_phys(m[xw]))->0,
            w,
            l,
            to,
            j2,
        )),
    decreases to,
{
    let n = m.len() as int / 512;
    let t = xv / 512;
    lemma_step_forward(base, cap, m, xv);
    lemma_step_forward(base, cap, m, xw);
    let ntv = frame_index(base, n, pte_phys(m[xv]))->0;
    let ntw = frame_index(base, n, pte_phys(m[xw]))->0;
    if visits(base, n, m, ntv, v, l, to, j1) && visits(base, n, m, ntw, w, l, to, j2) {
        if ntv == ntw {
            lemma_one_parent(base, cap, m, xv, xw, ntv);
        }
        lemma_visits_order(base, cap, m, ntv, v, l, to, j1);
        lemma_visits_order(base, cap, m, ntw, w, l, to, j2);
        if to == ntv {
            lemma_visits_last_step(base, cap, m, ntw, w, l, to, j2);
            let q = choose|q: int|
                #![trigger m[q]]
                0 <= q < m.len() && follows(m[q]) && frame_index(base, n, pte_phys(m[q])) == Some(to)
                    && visits(base, n, m, ntw, w, l, q / 512, j2 + 1) && slot(q / 512, w, j2 + 1) == q;
            lemma_one_parent(base, cap, m, q, xv, to);
            lemma_visits_order(base, cap, m, ntw, w, l, q / 512, j2 + 1);
        } else if to == ntw {
            lemma_visits_last_step(base, cap, m, ntv, v, l, to, j1);
            let q = choose|q: int|
                #![trigger m[q]]
                0 <= q < m.len() && follows(m[q]) && frame_index(base, n, pte_phys(m[q])) == Some(to)
                    && visits(base, n, m, ntv, v, l, q / 512, j1 + 1) && slot(q / 512, v, j1 + 1) == q;
            lemma_one_parent(base, cap, m, q, xw, to);
            lemma_visits_order(base, cap, m, ntv, v, l, q / 512, j1 + 1);
        } else {
            lemma_visits_last_step(base, cap, m, ntv, v, l, to, j1);
            let qv = choose|q: int|
                #![trigger m[q]]
                0 <= q < m.len() && follows(m[q]) && frame_index(base, n, pte_phys(m[q])) == Some(to)
                    && visits(base, n, m, ntv, v, l, q / 512, j1 + 1) && slot(q / 512, v, j1 + 1) == q;
            lemma_visits_last_step(base, cap, m, ntw, w, l, to, j2);
            let qw = choose|q: int|
                #![trigger m[q]]
                0 <= q < m.len() && follows(m[q]) && frame_index(base, n, pte_phys(m[q])) == Some(to)
                    && visits(base, n, m, ntw, w, l, q / 512, j2 + 1) && slot(q / 512, w, j2 + 1) == q;
            lemma_one_parent(base, cap, m, qv, qw, to);
            lemma_step_forward(base, cap, m, qv);
            lemma_visits_order(base, cap, m, ntv, v, l, qv / 512, j1 + 1);
            lemma_split_walks(base, cap, m, xv, xw, v, w, l, qv / 512, j1 + 1, j2 + 1);
        }
    }
}

/// Two walks from one table and level that reach the same table reach it at the same level,
/// and agree on every page number above it.
pub proof fn lemma_walks_meet(
    base: u64,
    cap: int,
    m: Seq<u64>,
    t: int,
    v: u64,
    w: u64,
    l: int,
    to: int,
    j1: int,
    j2: int,
)
    requires
        cells_wf(base, cap, m),
        visits(base, m.len() as int / 512, m, t, v, l, to, j1),
        visits(base, m.len() as int / 512, m, t, w, l, to, j2),
    ensures
        j1 == j2,
        forall|i: int| j1 < i <= l ==> page_number(v, i) == page_number(w, i),
    decreases l + 1,
{
    let n = m.len() as int / 512;
    lemma_visits_order(base, cap, m, t, v, l, to, j1);
    lemma_visits_order(base, cap, m, t, w, l, to, j2);
    if t != to {
        let xv = slot(t, v, l);
        let xw = slot(t, w, l);
        lemma_slot_table(t, v, l);
        lemma_slot_table(t, w, l);
        lemma_step_forward(base, cap, m, xv);
        lemma_step_forward(base, cap, m, xw);
        if xv == xw {
            let nt = frame_index(base, n, pte_phys(m[xv]))->0;
            lemma_walks_meet(base, cap, m, nt, v, w, l - 1, to, j1, j2);
        } else {
            lemma_split_walks(base, cap, m, xv, xw, v, w, l - 1, to, j1, j2);
        }
    }
}

/// An unmapping walk that ends at a leaf reaches the leaf's table at the leaf's level.
pub proof fn lemma_walk_visits(base: u64, n: int, m: Seq<u64>, t: int, v: u64, l: int)
    requires
        unmap_walk(base, n, m, t, v, l) matches Some(Ok(_)),
    ensures
        ({
            let (s, k) = unmap_walk(base, n, m, t, v, l)->0->Ok_0;
            visits(base, n, m, t, v, l, s / 512, k) && slot(s / 512, v, k) == s
        }),
    decreases l + 1,
{
    lemma_unmap_walk_leaf(base, n, m, t, v, l);
    let x = slot(t, v, l);
    lemma_slot_table(t, v, l);
    let e = m[x];
    if follows(e) {
        let nt = frame_index(base, n, pte_phys(e))->0;
        lemma_walk_visits(base, n, m, nt, v, l - 1);
    }
}


/// The block of size `size_at(k)` that holds `a` is its page number at level index `k` above
/// the block of the next level.
proof fn lemma_block_step(a: u64, k: int)
    requires
        0 <= k < 3,
    ensures
        a as int / size_at(k) as int == page_number(a, k) + 512 * (a as int / size_at(k + 1) as int),
{
    let sk = size_at(k) as int;
    let q = a as int / sk;
    vstd::arithmetic::div_mod::lemma_fundamental_div_mod(q, 512);
    vstd::arithmetic::div_mod::lemma_div_denominator(a as int, sk, 512);
    assert(sk * 512 == size_at(k + 1) as int);
}

/// Addresses below bit 48 with the same page numbers from level index `k` up lie in the same
/// block of size `size_at(k)`.
pub proof fn lemma_same_numbers_same_block(v: u64, w: u64, k: int)
    requires
        0 <= k <= 3,
        v < 0x1_0000_0000_0000,
        w < 0x1_0000_0000_0000,
        forall|i: int| k <= i <= 3 ==> page_number(v, i) == page_number(w, i),
    ensures
        v as int / size_at(k) as int == w as int / size_at(k) as int,
    decreases 3 - k,
{
    if k == 3 {
        assert(v as int / 0x80_0000_0000 < 512);
        assert(w as int / 0x80_0000_0000 < 512);
        assert(page_number(v, 3) == page_number(w, 3));
    } else {
        lemma_same_numbers_same_block(v, w, k + 1);
        lemma_block_step(v, k);
        lemma_block_step(w, k);
        assert(page_number(v, k) == page_number(w, k));
    }
}

/// Two addresses below bit 48 whose unmapping walks from one table end at the same leaf entry
/// lie in the same block of the leaf's level.
pub proof fn lemma_same_leaf_same_block(base: u64, cap: int, m: Seq<u64>, t: int, v: u64, w: u64)
    requires
        cells_wf(base, cap, m),
        v < 0x1_0000_0000_0000,
        w < 0x1_0000_0000_0000,
        unmap_walk(base, m.len() as int / 512, m, t, v, 3) matches Some(Ok(_)),
        unmap_walk(base, m.len() as int / 512, m, t, w, 3) matches Some(Ok(_)),
        unmap_walk(base, m.len() as int / 512, m, t, v, 3)->0->Ok_0.0 == unmap_walk(
            base,
            m.len() as int / 512,
            m,
            t,
            w,
            3,
        )->0->Ok_0.0,
    ensures
        ({
            let k = unmap_walk(base, m.len() as int / 512, m, t, v, 3)->0->Ok_0.1;
            &&& k == unmap_walk(base, m.len() as int / 512, m, t, w, 3)->0->Ok_0.1
            &&& v as int / size_at(k) as int == w as int / size_at(k) as int
        }),
{
    let n = m.len() as int / 512;
    let (s, kv) = unmap_walk(base, n, m, t, v, 3)->0->Ok_0;
    let kw = unmap_walk(base, n, m, t, w, 3)->0->Ok_0.1;
    lemma_walk_visits(base, n, m, t, v, 3);
    lemma_walk_visits(base, n, m, t, w, 3);
    lemma_unmap_walk_leaf(base, n, m, t, v, 3);
    lemma_unmap_walk_leaf(base, n, m, t, w, 3);
    lemma_walks_meet(base, cap, m, t, v, w, 3, s / 512, kv, kw);
    lemma_slot_table(s / 512, v, kv);
    lemma_slot_table(s / 512, w, kw);
    assert(page_number(v, kv) == page_number(w, kv));
    lemma_same_numbers_same_block(v, w, kv);
}


/// Clearing an entry that does not point to a further table keeps every walk that ends at
/// another leaf ending there.
pub proof fn lemma_clear_keeps_leaf(base: u64, n: int, m: Seq<u64>, s: int, t: int, v: u64, l: int)
    requires
        0 <= s < m.len(),
        !follows(m[s]),
        unmap_walk(base, n, m, t, v, l) matches Some(Ok(_)),
        unmap_walk(base, n, m, t, v, l)->0->Ok_0.0 != s,
    ensures
        unmap_walk(base, n, m.update(s, 0), t, v, l) == unmap_walk(base, n, m, t, v, l),
    decreases l + 1,
{
    let x = slot(t, v, l);
    let e = m[x];
    if follows(e) {
        let nt = frame_index(base, n, pte_phys(e))->0;
        lemma_clear_keeps_leaf(base, n, m, s, nt, v, l - 1);
    }
}

} // verus!
