//! Dynamic relocation of the kernel image: finding the relocation table among the dynamic
//! entries, and the memory writes each relocation entry calls for.
use vstd::prelude::*;

verus! {

/// The tag of the dynamic entry that ends the dynamic section.
pub const DT_NULL: i64 = 0;

/// The tag of the dynamic entry that holds the address of the relocation table.
pub const DT_RELA: i64 = 7;

/// The tag of the dynamic entry that holds the size of the relocation table, in bytes.
pub const DT_RELASZ: i64 = 8;

/// The tag of the dynamic entry that holds the size of one relocation entry, in bytes.
pub const DT_RELAENT: i64 = 9;

/// The type of a relocation that adds the load slide to an address.
pub const R_RISCV_RELATIVE: u32 = 3;

/// An entry of the dynamic section.
#[derive(Clone, Copy, PartialEq, Eq, Structural, Debug)]
pub struct DynEntry {
    pub d_tag: i64,
    pub d_un: u64,
}

/// A relocation entry with an addend.
#[derive(Clone, Copy, PartialEq, Eq, Structural, Debug)]
pub struct RelaEntry {
    pub r_offset: u64,
    pub r_info: u64,
    pub r_addend: i64,
}

/// Where the relocation table lies: its address, its size and the size of an entry, in bytes.
#[derive(Clone, Copy, PartialEq, Eq, Structural, Debug)]
pub struct RelaTable {
    pub addr: u64,
    pub size: u64,
    pub ent_size: u64,
}

/// The index of the first entry from `k` on that ends the dynamic section.
pub open spec fn null_from(s: Seq<DynEntry>, k: int) -> int
    decreases s.len() - k,
{
    if k < 0 || k >= s.len() {
        s.len() as int
    } else if s[k].d_tag == DT_NULL {
        k
    } else {
        null_from(s, k + 1)
    }
}

/// The value of the last entry of `s` with the tag `tag`, or zero where there is none.
pub open spec fn last_value(s: Seq<DynEntry>, tag: i64) -> u64
    decreases s.len(),
{
    if s.len() == 0 {
        0
    } else if s.last().d_tag == tag {
        s.last().d_un
    } else {
        last_value(s.drop_last(), tag)
    }
}

/// The relocation table that the dynamic entries before the end of the section describe, with
/// `bias` subtracted (wrapping) from its address.
pub open spec fn rela_table_spec(s: Seq<DynEntry>, bias: u64) -> RelaTable {
    let d = s.subrange(0, null_from(s, 0));
    RelaTable {
        addr: if exists|k: int| 0 <= k < d.len() && d[k].d_tag == DT_RELA {
            vstd::wrapping::u64_specs::wrapping_sub(last_value(d, DT_RELA), bias)
        } else {
            0
        },
        size: last_value(d, DT_RELASZ),
        ent_size: last_value(d, DT_RELAENT),
    }
}

/// `null_from` steps over an entry that does not end the section.
proof fn lemma_null_from(s: Seq<DynEntry>, k: int)
    requires
        0 <= k,
    ensures
        k <= null_from(s, k) <= s.len() || k > s.len(),
        k < s.len() && s[k].d_tag != DT_NULL ==> null_from(s, k) == null_from(s, k + 1),
        k < s.len() && s[k].d_tag == DT_NULL ==> null_from(s, k) == k,
        k >= s.len() ==> null_from(s, k) == s.len(),
    decreases s.len() - k,
{
    if k < s.len() && s[k].d_tag != DT_NULL {
        lemma_null_from(s, k + 1);
    }
}

/// Finds the relocation table that the dynamic entries describe, reading up to the entry that
/// ends the section (or the end of `dyns`). The address of the table is taken with `bias`
/// subtracted, wrapping; a tag that does not occur leaves its value zero.
pub fn find_rela_table(dyns: &Vec<DynEntry>, bias: u64) -> (r: RelaTable)
    ensures
        r == rela_table_spec(dyns@, bias),
{
    let ghost s = dyns@;
    let ghost end = null_from(s, 0);
    let mut rela_addr: u64 = 0;
    let mut rela_size: u64 = 0;
    let mut rela_ent_size: u64 = 0;
    let mut seen_rela = false;
    let mut k: usize = 0;
    proof {
        lemma_null_from(s, 0);
        assert(s.subrange(0, 0) =~= Seq::<DynEntry>::empty());
    }
    while k < dyns.len() && dyns[k].d_tag != DT_NULL
        invariant
            s == dyns@,
            0 <= k <= end,
            end == null_from(s, 0),
            end <= s.len(),
            null_from(s, k as int) == end,
            rela_size == last_value(s.subrange(0, k as int), DT_RELASZ),
            rela_ent_size == last_value(s.subrange(0, k as int), DT_RELAENT),
            seen_rela == exists|j: int| 0 <= j < k && s[j].d_tag == DT_RELA,
            seen_rela ==> rela_addr == vstd::wrapping::u64_specs::wrapping_sub(
                last_value(s.subrange(0, k as int), DT_RELA),
                bias,
            ),
            !seen_rela ==> rela_addr == 0,
        decreases dyns.len() - k,
    {
        let e = dyns[k];
        proof {
            lemma_null_from(s, k as int);
            lemma_null_from(s, k as int + 1);
            let p = s.subrange(0, k as int + 1);
            assert(p.drop_last() =~= s.subrange(0, k as int));
            assert(p.last() == e);
        }
        if e.d_tag == DT_RELA {
            rela_addr = e.d_un.wrapping_sub(bias);
            seen_rela = true;
        } else if e.d_tag == DT_RELASZ {
            rela_size = e.d_un;
        } else if e.d_tag == DT_RELAENT {
            rela_ent_size = e.d_un;
        }
        proof {
            if seen_rela && e.d_tag != DT_RELA {
                let w = choose|j: int| 0 <= j < k && s[j].d_tag == DT_RELA;
                assert(0 <= w < k + 1 && s[w].d_tag == DT_RELA);
            }
            if e.d_tag == DT_RELA {
                assert(0 <= k < k + 1 && s[k as int].d_tag == DT_RELA);
            }
        }
        k = k + 1;
    }
    proof {
        lemma_null_from(s, k as int);
        assert(k == end);
        let d = s.subrange(0, end);
        assert(seen_rela == exists|j: int| 0 <= j < d.len() && d[j].d_tag == DT_RELA) by {
            if seen_rela {
                let w = choose|j: int| 0 <= j < k && s[j].d_tag == DT_RELA;
                assert(d[w] == s[w]);
            }
            if exists|j: int| 0 <= j < d.len() && d[j].d_tag == DT_RELA {
                let w = choose|j: int| 0 <= j < d.len() && d[j].d_tag == DT_RELA;
                assert(d[w] == s[w]);
            }
        }
    }
    RelaTable { addr: rela_addr, size: rela_size, ent_size: rela_ent_size }
}

/// The number of entries of a relocation table, or zero where there is no table (its address
/// or its size is zero). The entry size must not be zero where there is a table.
pub fn rela_entry_count(t: &RelaTable) -> (r: u64)
    requires
        t.addr != 0 && t.size != 0 ==> t.ent_size != 0,
    ensures
        t.addr == 0 || t.size == 0 ==> r == 0,
        t.addr != 0 && t.size != 0 ==> r == t.size / t.ent_size,
{
    if t.addr != 0 && t.size != 0 {
        t.size / t.ent_size
    } else {
        0
    }
}

/// The address of the entry `i` of a relocation table.
pub fn rela_entry_addr(t: &RelaTable, i: u64) -> (r: u64)
    requires
        t.addr + i * t.ent_size <= u64::MAX,
    ensures
        r == t.addr + i * t.ent_size,
{
    proof {
        assert(0 <= i * t.ent_size) by (nonlinear_arith);
    }
    t.addr + i * t.ent_size
}

/// The type of a relocation entry: the low 32 bits of its info field.
pub open spec fn rela_type(rela: RelaEntry) -> u64 {
    rela.r_info % 0x1_0000_0000
}

/// The low 32 bits of a word are the word modulo 2^32.
proof fn lemma_low_word(info: u64)
    by (bit_vector)
    ensures
        info & 0xffff_ffff == info % 0x1_0000_0000,
{
}

/// The write a relative relocation calls for while the kernel runs at its physical load
/// address: the word at the entry's offset less `slide` receives the entry's addend less
/// `slide` (both wrapping). Other relocations call for no write.
pub fn relocate_entry(rela: &RelaEntry, slide: u64) -> (r: Option<(u64, u64)>)
    ensures
        rela_type(*rela) == R_RISCV_RELATIVE ==> r == Some(
            (
                vstd::wrapping::u64_specs::wrapping_sub(rela.r_offset, slide),
                vstd::wrapping::u64_specs::wrapping_sub(rela.r_addend as u64, slide),
            ),
        ),
        rela_type(*rela) != R_RISCV_RELATIVE ==> r is None,
{
    let rela_type = rela.r_info & 0xffff_ffff;
    proof {
        lemma_low_word(rela.r_info);
    }
    if rela_type == R_RISCV_RELATIVE as u64 {
        Some((rela.r_offset.wrapping_sub(slide), (rela.r_addend as u64).wrapping_sub(slide)))
    } else {
        None
    }
}

/// The word a relative relocation shifts by the slide once the kernel is mapped: the one at the
/// entry's offset. Other relocations shift nothing.
pub fn slide_entry(rela: &RelaEntry) -> (r: Option<u64>)
    ensures
        rela_type(*rela) == R_RISCV_RELATIVE ==> r == Some(rela.r_offset),
        rela_type(*rela) != R_RISCV_RELATIVE ==> r is None,
{
    let rela_type = rela.r_info & 0xffff_ffff;
    proof {
        lemma_low_word(rela.r_info);
    }
    if rela_type == R_RISCV_RELATIVE as u64 {
        Some(rela.r_offset)
    } else {
        None
    }
}

/// The writes the relocation of the kernel calls for, entry by entry, in order.
pub fn relocation_writes(relas: &Vec<RelaEntry>, slide: u64) -> (r: Vec<(u64, u64)>)
    ensures
        r@ == relocation_writes_spec(relas@, slide),
        r@ == relas@.filter_map(
            |e: RelaEntry|
                if rela_type(e) == R_RISCV_RELATIVE {
                    Some(
                        (
                            vstd::wrapping::u64_specs::wrapping_sub(e.r_offset, slide),
                            vstd::wrapping::u64_specs::wrapping_sub(e.r_addend as u64, slide),
                        ),
                    )
                } else {
                    None
                },
        ),
{
    let mut out: Vec<(u64, u64)> = Vec::new();
    let mut i: usize = 0;
    proof {
        assert(relas@.subrange(0, 0) =~= Seq::<RelaEntry>::empty());
    }
    while i < relas.len()
        invariant
            i <= relas.len(),
            out@ == relocation_writes_spec(relas@.subrange(0, i as int), slide),
        decreases relas.len() - i,
    {
        let ghost before = out@;
        proof {
            let p = relas@.subrange(0, i as int + 1);
            assert(p.drop_last() =~= relas@.subrange(0, i as int));
            assert(p.last() == relas@[i as int]);
        }
        match relocate_entry(&relas[i], slide) {
            Some(w) => {
                out.push(w);
            },
            None => {
                proof {
                    assert(before + Seq::<(u64, u64)>::empty() =~= before);
                }
            },
        }
        proof {
            assert(out@ =~= relocation_writes_spec(relas@.subrange(0, i as int + 1), slide));
        }
        i = i + 1;
    }
    proof {
        assert(relas@.subrange(0, relas@.len() as int) =~= relas@);
        lemma_relocation_writes_filter_map(relas@, slide);
    }
    out
}

/// Law: the writes of a relocation are those each relative entry calls for, in the order of
/// the entries and with the slide given: the word at the entry's offset less the slide receives
/// the entry's addend less the slide (both wrapping); entries of other types call for none.
pub proof fn lemma_relocation_writes_filter_map(s: Seq<RelaEntry>, slide: u64)
    ensures
        relocation_writes_spec(s, slide) == s.filter_map(
            |e: RelaEntry|
                if rela_type(e) == R_RISCV_RELATIVE {
                    Some(
                        (
                            vstd::wrapping::u64_specs::wrapping_sub(e.r_offset, slide),
                            vstd::wrapping::u64_specs::wrapping_sub(e.r_addend as u64, slide),
                        ),
                    )
                } else {
                    None
                },
        ),
    decreases s.len(),
{
    if s.len() > 0 {
        lemma_relocation_writes_filter_map(s.drop_last(), slide);
        let f = |e: RelaEntry|
            if rela_type(e) == R_RISCV_RELATIVE {
                Some(
                    (
                        vstd::wrapping::u64_specs::wrapping_sub(e.r_offset, slide),
                        vstd::wrapping::u64_specs::wrapping_sub(e.r_addend as u64, slide),
                    ),
                )
            } else {
                None
            };
        assert(s.filter_map(f) == s.drop_last().filter_map(f) + match f(s.last()) {
            Some(w) => seq![w],
            None => Seq::<(u64, u64)>::empty(),
        }) by {
            if f(s.last()) is None {
                assert(s.drop_last().filter_map(f) + Seq::<(u64, u64)>::empty() =~= s.drop_last().filter_map(f));
            }
        }
        assert(relocation_writes_spec(s, slide) =~= s.filter_map(f));
    }
}

/// Law: every write of a relocation goes to a relative entry's offset less the slide, with that
/// entry's addend less the slide, and there is one write for each relative entry.
pub proof fn lemma_relocation_write_of_entry(s: Seq<RelaEntry>, slide: u64, k: int)
    requires
        0 <= k < s.len(),
        rela_type(s[k]) == R_RISCV_RELATIVE,
    ensures
        relocation_writes_spec(s, slide).contains(
            (
                vstd::wrapping::u64_specs::wrapping_sub(s[k].r_offset, slide),
                vstd::wrapping::u64_specs::wrapping_sub(s[k].r_addend as u64, slide),
            ),
        ),
    decreases s.len(),
{
    let w = (
        vstd::wrapping::u64_specs::wrapping_sub(s[k].r_offset, slide),
        vstd::wrapping::u64_specs::wrapping_sub(s[k].r_addend as u64, slide),
    );
    let p = relocation_writes_spec(s.drop_last(), slide);
    if k == s.len() - 1 {
        let r = relocation_writes_spec(s, slide);
        assert(r[p.len() as int] == w);
    } else {
        assert(s.drop_last()[k] == s[k]);
        lemma_relocation_write_of_entry(s.drop_last(), slide, k);
        let j = choose|j: int| 0 <= j < p.len() && p[j] == w;
        let r = relocation_writes_spec(s, slide);
        assert(r[j] == w);
    }
}

/// The writes of the relative relocations of `s`, in order.
pub open spec fn relocation_writes_spec(s: Seq<RelaEntry>, slide: u64) -> Seq<(u64, u64)>
    decreases s.len(),
{
    if s.len() == 0 {
        Seq::empty()
    } else {
        relocation_writes_spec(s.drop_last(), slide) + if rela_type(s.last()) == R_RISCV_RELATIVE {
            seq![
                (
                    vstd::wrapping::u64_specs::wrapping_sub(s.last().r_offset, slide),
                    vstd::wrapping::u64_specs::wrapping_sub(s.last().r_addend as u64, slide),
                ),
            ]
        } else {
            Seq::empty()
        }
    }
}

} // verus!
