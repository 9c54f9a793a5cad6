//! The nodes of a devicetree as plain values, and the searches the kernel makes among them: the
//! first node compatible with a device, the nodes whose interrupts go to an interrupt
//! controller, and the timer interval of a hart.
use vstd::prelude::*;

use crate::addr::PAddr;
use crate::blob::blob_ok;
use crate::cpus::cpus_ok;
use crate::devicetree::entries_of;
use crate::region::MemoryRegion;

verus! {

/// A node of a devicetree, as plain values: its name, its `compatible` strings, its `reg`
/// entries (address, optional size), its interrupts (where its interrupt parent gives their
/// cell count), and the name of its interrupt parent (where it names one the devicetree holds).
#[derive(Clone, Debug)]
pub struct DtNode {
    pub name: String,
    pub compatible: Vec<String>,
    pub reg: Vec<(u64, Option<u64>)>,
    pub interrupts: Option<Vec<u64>>,
    pub interrupt_parent: Option<String>,
}

/// `x` is one of `names`.
pub open spec fn names_contain(names: Seq<String>, x: Seq<char>) -> bool {
    exists|j: int| 0 <= j < names.len() && #[trigger] names[j]@ == x
}

/// One of the `compatible` strings of `n` is one of `compat`.
pub open spec fn is_compatible(n: DtNode, compat: Seq<String>) -> bool {
    exists|i: int|
        0 <= i < n.compatible@.len() && #[trigger] names_contain(compat, n.compatible@[i]@)
}

fn name_in(names: &Vec<String>, x: &String) -> (r: bool)
    ensures
        r == names_contain(names@, x@),
{
    let mut j: usize = 0;
    while j < names.len()
        invariant
            j <= names.len(),
            forall|i: int| 0 <= i < j ==> #[trigger] names@[i]@ != x@,
        decreases names.len() - j,
    {
        if names[j] == *x {
            return true;
        }
        j = j + 1;
    }
    false
}

fn node_is_compatible(n: &DtNode, compat: &Vec<String>) -> (r: bool)
    ensures
        r == is_compatible(*n, compat@),
{
    let mut i: usize = 0;
    while i < n.compatible.len()
        invariant
            i <= n.compatible.len(),
            forall|k: int| 0 <= k < i ==> !#[trigger] names_contain(compat@, n.compatible@[k]@),
        decreases n.compatible.len() - i,
    {
        if name_in(compat, &n.compatible[i]) {
            return true;
        }
        i = i + 1;
    }
    false
}

/// Finds the first node with a `compatible` string among `compat`, with its first `reg` entry
/// as a memory region, or [`None`] if no node is compatible or the first compatible node has
/// no `reg` entry.
pub fn find_compatible(nodes: &Vec<DtNode>, compat: &Vec<String>) -> (r: Option<
    (usize, MemoryRegion),
>)
    ensures
        match r {
            Some((k, m)) => {
                &&& k < nodes@.len()
                &&& is_compatible(nodes@[k as int], compat@)
                &&& forall|i: int| 0 <= i < k ==> !is_compatible(#[trigger] nodes@[i], compat@)
                &&& nodes@[k as int].reg@.len() > 0
                &&& m.base_spec() == nodes@[k as int].reg@[0].0
                &&& m.size_spec() == nodes@[k as int].reg@[0].1
            },
            None => forall|k: int|
                0 <= k < nodes@.len() && is_compatible(#[trigger] nodes@[k], compat@) ==> (exists|i: int|
                    0 <= i < k && is_compatible(#[trigger] nodes@[i], compat@)) || nodes@[k].reg@.len()
                    == 0,
        },
{
    let mut k: usize = 0;
    while k < nodes.len()
        invariant
            k <= nodes.len(),
            forall|i: int| 0 <= i < k ==> !is_compatible(#[trigger] nodes@[i], compat@),
        decreases nodes.len() - k,
    {
        let n = &nodes[k];
        if node_is_compatible(n, compat) {
            if n.reg.len() == 0 {
                proof {
                    assert(nodes@[k as int].reg@.len() == 0);
                    assert(is_compatible(nodes@[k as int], compat@));
                    assert forall|j: int|
                        0 <= j < nodes@.len() && is_compatible(#[trigger] nodes@[j], compat@) implies (exists|i: int|
                            0 <= i < j && is_compatible(#[trigger] nodes@[i], compat@)) || nodes@[j].reg@.len()
                            == 0 by {
                        if j > k {
                            assert(0 <= k < j && is_compatible(nodes@[k as int], compat@));
                        } else if j == k {
                            assert(nodes@[j].reg@.len() == 0);
                        }
                    }
                }
                return None;
            }
            let (a, s) = n.reg[0];
            return Some((k, MemoryRegion::new(PAddr::new(a), s)));
        }
        k = k + 1;
    }
    None
}

/// The nonzero entries of `s`, in order: the valid interrupt sources among them.
pub open spec fn nonzero(s: Seq<u64>) -> Seq<u64>
    decreases s.len(),
{
    if s.len() == 0 {
        Seq::empty()
    } else {
        nonzero(s.drop_last()) + if s.last() != 0 {
            seq![s.last()]
        } else {
            Seq::<u64>::empty()
        }
    }
}

/// `n` has interrupts and its interrupt parent is named `parent`.
pub open spec fn interrupts_to(n: DtNode, parent: Seq<char>) -> bool {
    &&& n.interrupts is Some
    &&& n.interrupt_parent matches Some(p) && p@ == parent
}

/// The interrupts of `n`, where it has them.
pub open spec fn interrupts_of(n: DtNode) -> Seq<u64> {
    match n.interrupts {
        Some(v) => v@,
        None => Seq::empty(),
    }
}

/// The index and the nonzero interrupts of each node whose interrupts go to `parent`, in order.
pub open spec fn with_interrupts(nodes: Seq<DtNode>, parent: Seq<char>) -> Seq<(usize, Seq<u64>)>
    decreases nodes.len(),
{
    if nodes.len() == 0 {
        Seq::empty()
    } else {
        let n = nodes.last();
        with_interrupts(nodes.drop_last(), parent) + if interrupts_to(n, parent) {
            seq![((nodes.len() - 1) as usize, nonzero(interrupts_of(n)))]
        } else {
            Seq::<(usize, Seq<u64>)>::empty()
        }
    }
}

/// A list of interrupt lists, each taken by its view.
pub open spec fn index_views(v: Seq<(usize, Vec<u64>)>) -> Seq<(usize, Seq<u64>)> {
    v.map_values(|e: (usize, Vec<u64>)| (e.0, e.1@))
}

fn nonzero_sources(ints: &Vec<u64>) -> (r: Vec<u64>)
    ensures
        r@ == nonzero(ints@),
{
    let mut out: Vec<u64> = Vec::new();
    let mut i: usize = 0;
    proof {
        assert(ints@.subrange(0, 0) =~= Seq::<u64>::empty());
    }
    while i < ints.len()
        invariant
            i <= ints.len(),
            out@ == nonzero(ints@.subrange(0, i as int)),
        decreases ints.len() - i,
    {
        proof {
            let sub = ints@.subrange(0, i as int + 1);
            assert(sub.drop_last() =~= ints@.subrange(0, i as int));
            assert(sub.last() == ints@[i as int]);
        }
        let x = ints[i];
        if x != 0 {
            out.push(x);
        } else {
            proof {
                assert(out@ + Seq::<u64>::empty() =~= out@);
            }
        }
        i = i + 1;
    }
    proof {
        assert(ints@.subrange(0, ints@.len() as int) =~= ints@);
    }
    out
}

/// Finds all nodes that have interrupts and whose interrupt parent is named `parent`, with
/// their interrupt sources (the nonzero interrupts), by index in `nodes`.
pub fn all_with_interrupts(nodes: &Vec<DtNode>, parent: &String) -> (r: Vec<(usize, Vec<u64>)>)
    ensures
        index_views(r@) == with_interrupts(nodes@, parent@),
{
    let mut out: Vec<(usize, Vec<u64>)> = Vec::new();
    let mut k: usize = 0;
    proof {
        assert(nodes@.subrange(0, 0) =~= Seq::<DtNode>::empty());
        assert(index_views(out@) =~= Seq::<(usize, Seq<u64>)>::empty());
    }
    while k < nodes.len()
        invariant
            k <= nodes.len(),
            index_views(out@) == with_interrupts(nodes@.subrange(0, k as int), parent@),
        decreases nodes.len() - k,
    {
        let ghost before = out@;
        proof {
            let sub = nodes@.subrange(0, k as int + 1);
            assert(sub.drop_last() =~= nodes@.subrange(0, k as int));
            assert(sub.last() == nodes@[k as int]);
        }
        let n = &nodes[k];
        let mut matched = false;
        match (&n.interrupts, &n.interrupt_parent) {
            (Some(ints), Some(p)) => {
                if *p == *parent {
                    let sources = nonzero_sources(ints);
                    out.push((k, sources));
                    matched = true;
                    proof {
                        assert(index_views(out@) =~= index_views(before).push((k, sources@)));
                    }
                }
            },
            _ => {},
        }
        if !matched {
            proof {
                assert(index_views(out@) =~= index_views(before) + Seq::<(usize, Seq<u64>)>::empty());
            }
        }
        k = k + 1;
    }
    proof {
        assert(nodes@.subrange(0, nodes@.len() as int) =~= nodes@);
    }
    out
}

/// `hid` is one of `ids`.
pub open spec fn holds_id(ids: Seq<u64>, hid: u64) -> bool {
    exists|i: int| 0 <= i < ids.len() && ids[i] == hid
}

/// The IDs and the timebase frequency of each cpu, each taken by its view.
pub open spec fn cpu_views(v: Seq<(Vec<u64>, u64)>) -> Seq<(Seq<u64>, u64)> {
    v.map_values(|c: (Vec<u64>, u64)| (c.0@, c.1))
}

/// `r` is the timer interval of the hart `hid` among `cpus` (the IDs and the timebase
/// frequency of each `cpu` node): a hundredth of the timebase frequency of the first cpu whose
/// IDs hold `hid`, or [`None`] if no cpu does.
pub open spec fn interval_among(cpus: Seq<(Seq<u64>, u64)>, hid: u64, r: Option<u64>) -> bool {
    match r {
        Some(t) => exists|k: int|
            0 <= k < cpus.len() && holds_id(cpus[k].0, hid) && (forall|i: int|
                0 <= i < k ==> !holds_id(#[trigger] cpus[i].0, hid)) && t == cpus[k].1 / 100,
        None => forall|k: int| 0 <= k < cpus.len() ==> !holds_id(#[trigger] cpus[k].0, hid),
    }
}

/// The timer interval of the hart `hid`, among `cpus` (the IDs and the timebase frequency of
/// each `cpu` node): a hundredth of the timebase frequency of the first cpu whose IDs hold
/// `hid`, or [`None`] if no cpu does.
pub fn timer_interval(cpus: &Vec<(Vec<u64>, u64)>, hid: u64) -> (r: Option<u64>)
    ensures
        interval_among(cpu_views(cpus@), hid, r),
{
    let ghost cv = cpu_views(cpus@);
    proof {
        assert forall|i: int| 0 <= i < cpus@.len() implies #[trigger] cv[i] == (cpus@[i].0@, cpus@[i].1) by {}
    }
    let mut k: usize = 0;
    while k < cpus.len()
        invariant
            k <= cpus.len(),
            cv == cpu_views(cpus@),
            cv.len() == cpus@.len(),
            forall|i: int| 0 <= i < cpus@.len() ==> #[trigger] cv[i] == (cpus@[i].0@, cpus@[i].1),
            forall|i: int| 0 <= i < k ==> !holds_id(#[trigger] cpus@[i].0@, hid),
        decreases cpus.len() - k,
    {
        let ids = &cpus[k].0;
        let mut j: usize = 0;
        while j < ids.len()
            invariant
                j <= ids.len(),
                k < cpus.len(),
                ids@ == cpus@[k as int].0@,
                cv == cpu_views(cpus@),
                cv.len() == cpus@.len(),
                forall|i: int| 0 <= i < cpus@.len() ==> #[trigger] cv[i] == (cpus@[i].0@, cpus@[i].1),
                forall|i: int| 0 <= i < k ==> !holds_id(#[trigger] cpus@[i].0@, hid),
                forall|i: int| 0 <= i < j ==> ids@[i] != hid,
            decreases ids.len() - j,
        {
            if ids[j] == hid {
                let t = cpus[k].1 / 100;
                proof {
                    assert(holds_id(cpus@[k as int].0@, hid));
                    assert(cv[k as int] == (cpus@[k as int].0@, cpus@[k as int].1));
                    assert forall|i: int| 0 <= i < k implies !holds_id(#[trigger] cv[i].0, hid) by {
                        assert(cv[i] == (cpus@[i].0@, cpus@[i].1));
                    }
                    assert(holds_id(cv[k as int].0, hid));
                }
                return Some(t);
            }
            j = j + 1;
        }
        proof {
            assert(!holds_id(cpus@[k as int].0@, hid));
        }
        k = k + 1;
    }
    proof {
        assert forall|i: int| 0 <= i < cv.len() implies !holds_id(#[trigger] cv[i].0, hid) by {
            assert(cv[i] == (cpus@[i].0@, cpus@[i].1));
        }
    }
    None
}

/// What `fdt::Fdt::cpus` yields for a blob, with `fdt::standard_nodes::Cpu::ids`,
/// `fdt::standard_nodes::CpuIds::all` and `fdt::standard_nodes::Cpu::timebase_frequency`: for
/// each `cpu` node under `/cpus`, its IDs and its timebase frequency.
pub uninterp spec fn dt_cpus(blob: Seq<u8>) -> Seq<(Seq<u64>, u64)>;

/// Reads the IDs and the timebase frequency of each `cpu` node of `blob`, through
/// `fdt::Fdt::new`, `fdt::Fdt::cpus`, `fdt::standard_nodes::Cpu::ids`,
/// `fdt::standard_nodes::CpuIds::all` and `fdt::standard_nodes::Cpu::timebase_frequency`. The
/// result is named, as a function of the blob alone. On a blob of the structure [`blob_ok`]
/// with the `/cpus` node [`cpus_ok`] describes, `/cpus` is found, each cpu has `reg`, its ID
/// cells are one or two words where it lists any, and its timebase frequency (or that of
/// `/cpus`) is one or two cells, so that none of the calls panics.
#[verifier::external_body]
fn fdt_cpus(blob: &[u8]) -> (r: Vec<(Vec<u64>, u64)>)
    requires
        blob_ok(blob@),
        cpus_ok(blob@),
    ensures
        cpu_views(r@) == dt_cpus(blob@),
{
    match fdt::Fdt::new(blob) {
        Ok(fdt) => fdt.cpus().map(|c| (
            c.ids().all().map(|id| id as u64).collect(),
            c.timebase_frequency() as u64,
        )).collect(),
        Err(_) => Vec::new(),
    }
}

/// Initializes timer interrupts from a devicetree blob: the interval between two of them on
/// the hart `hid` is a hundredth of the timebase frequency of its `cpu` node, or [`None`] if
/// no `cpu` node lists `hid`. The blob must be of the structure that [`blob_ok`] describes,
/// with the `/cpus` node that [`cpus_ok`] describes ([`crate::cpus::check_cpus`] tells).
pub fn blob_timer_interval(blob: &[u8], hid: u64) -> (r: Option<u64>)
    requires
        blob_ok(blob@),
        cpus_ok(blob@),
    ensures
        interval_among(dt_cpus(blob@), hid, r),
{
    let cpus = fdt_cpus(blob);
    timer_interval(&cpus, hid)
}


/// What `fdt::Fdt::all_nodes` yields for a blob, node by node, depth first: the node names.
pub uninterp spec fn dt_node_names(blob: Seq<u8>) -> Seq<Seq<char>>;

/// What `fdt::node::FdtNode::compatible` yields for each node of a blob, in the order of
/// `fdt::Fdt::all_nodes`: its `compatible` strings, or `None` where it has no such property.
pub uninterp spec fn dt_node_compatibles(blob: Seq<u8>) -> Seq<Option<Seq<Seq<char>>>>;

/// What `fdt::node::FdtNode::reg` yields for each node of a blob, in the order of
/// `fdt::Fdt::all_nodes`: its `reg` entries, or `None` where they cannot be read.
pub uninterp spec fn dt_node_regs(blob: Seq<u8>) -> Seq<Option<Seq<(u64, Option<u64>)>>>;

/// What `fdt::node::FdtNode::interrupts` yields for each node of a blob, in the order of
/// `fdt::Fdt::all_nodes`: its interrupts, or `None` where they cannot be read.
pub uninterp spec fn dt_node_interrupts(blob: Seq<u8>) -> Seq<Option<Seq<u64>>>;

/// What `fdt::node::FdtNode::interrupt_parent` yields for each node of a blob, in the order of
/// `fdt::Fdt::all_nodes`: the name of its interrupt parent, or `None` where it has none.
pub uninterp spec fn dt_node_interrupt_parents(blob: Seq<u8>) -> Seq<Option<Seq<char>>>;

/// Strings, each taken by its view.
pub open spec fn string_views(v: Seq<String>) -> Seq<Seq<char>> {
    v.map_values(|x: String| x@)
}

/// A list of strings that may be missing, taken by its view.
pub open spec fn opt_strings_view(o: Option<Vec<String>>) -> Option<Seq<Seq<char>>> {
    match o {
        Some(v) => Some(string_views(v@)),
        None => None,
    }
}

/// A list of entries that may be missing, taken by its view.
pub open spec fn opt_view<T>(o: Option<Vec<T>>) -> Option<Seq<T>> {
    match o {
        Some(v) => Some(v@),
        None => None,
    }
}

/// A string that may be missing, taken by its view.
pub open spec fn opt_string_view(o: Option<String>) -> Option<Seq<char>> {
    match o {
        Some(x) => Some(x@),
        None => None,
    }
}

/// Reads the names of the nodes of `blob`, through `fdt::Fdt::new` and `fdt::Fdt::all_nodes`.
/// The result is named, as a function of the blob alone. On a blob of the structure
/// [`blob_ok`] the walk stays within the blocks and nests no deeper than its parent table.
#[verifier::external_body]
fn fdt_node_names(blob: &[u8]) -> (r: Vec<String>)
    requires
        blob_ok(blob@),
    ensures
        string_views(r@) == dt_node_names(blob@),
{
    match fdt::Fdt::new(blob) {
        Ok(fdt) => fdt.all_nodes().map(|n| String::from(n.name)).collect(),
        Err(_) => Vec::new(),
    }
}

/// Reads the `compatible` strings of the nodes of `blob`, through `fdt::Fdt::all_nodes`,
/// `fdt::node::FdtNode::compatible` and `fdt::standard_nodes::Compatible::all`. The result is
/// named, as a function of the blob alone.
#[verifier::external_body]
fn fdt_node_compatibles(blob: &[u8]) -> (r: Vec<Option<Vec<String>>>)
    requires
        blob_ok(blob@),
    ensures
        r@.map_values(|c: Option<Vec<String>>| opt_strings_view(c)) == dt_node_compatibles(blob@),
{
    match fdt::Fdt::new(blob) {
        Ok(fdt) => fdt.all_nodes().map(|n| n.compatible().map(|c| c.all().map(String::from).collect())).collect(),
        Err(_) => Vec::new(),
    }
}

/// Reads the `reg` entries of the nodes of `blob`, through `fdt::Fdt::all_nodes` and
/// `fdt::node::FdtNode::reg`. The result is named, as a function of the blob alone; on a blob
/// of the structure [`blob_ok`] every cell count has a whole cell.
#[verifier::external_body]
fn fdt_node_regs(blob: &[u8]) -> (r: Vec<Option<Vec<(u64, Option<u64>)>>>)
    requires
        blob_ok(blob@),
    ensures
        r@.map_values(|c: Option<Vec<(u64, Option<u64>)>>| opt_view(c)) == dt_node_regs(blob@),
{
    match fdt::Fdt::new(blob) {
        Ok(fdt) => fdt.all_nodes().map(|n| n.reg().map(|rs| rs.map(|r| (
            r.starting_address as usize as u64,
            r.size.map(|z| z as u64),
        )).collect())).collect(),
        Err(_) => Vec::new(),
    }
}

/// Reads the interrupts of the nodes of `blob`, through `fdt::Fdt::all_nodes` and
/// `fdt::node::FdtNode::interrupts`. The result is named, as a function of the blob alone.
#[verifier::external_body]
fn fdt_node_interrupts(blob: &[u8]) -> (r: Vec<Option<Vec<u64>>>)
    requires
        blob_ok(blob@),
    ensures
        r@.map_values(|c: Option<Vec<u64>>| opt_view(c)) == dt_node_interrupts(blob@),
{
    match fdt::Fdt::new(blob) {
        Ok(fdt) => fdt.all_nodes().map(|n| n.interrupts().map(|i| i.map(|x| x as u64).collect())).collect(),
        Err(_) => Vec::new(),
    }
}

/// Reads the names of the interrupt parents of the nodes of `blob`, through
/// `fdt::Fdt::all_nodes` and `fdt::node::FdtNode::interrupt_parent`. The result is named, as a
/// function of the blob alone.
#[verifier::external_body]
fn fdt_node_interrupt_parents(blob: &[u8]) -> (r: Vec<Option<String>>)
    requires
        blob_ok(blob@),
    ensures
        r@.map_values(|c: Option<String>| opt_string_view(c)) == dt_node_interrupt_parents(blob@),
{
    match fdt::Fdt::new(blob) {
        Ok(fdt) => fdt.all_nodes().map(|n| n.interrupt_parent().map(|p| String::from(p.name))).collect(),
        Err(_) => Vec::new(),
    }
}

/// A list of strings that may be missing, as a (possibly empty) list.
pub open spec fn strings_of(o: Option<Seq<Seq<char>>>) -> Seq<Seq<char>> {
    match o {
        Some(s) => s,
        None => Seq::empty(),
    }
}

/// The `k`-th node read from `blob` is `n`.
pub open spec fn node_read(blob: Seq<u8>, k: int, n: DtNode) -> bool {
    &&& n.name@ == dt_node_names(blob)[k]
    &&& string_views(n.compatible@) == strings_of(dt_node_compatibles(blob)[k])
    &&& n.reg@ == entries_of(dt_node_regs(blob)[k])
    &&& opt_view(n.interrupts) == dt_node_interrupts(blob)[k]
    &&& opt_string_view(n.interrupt_parent) == dt_node_interrupt_parents(blob)[k]
}

/// The number of nodes that all five readings give.
pub open spec fn nodes_read(blob: Seq<u8>) -> int {
    let a = dt_node_names(blob).len() as int;
    let b = dt_node_compatibles(blob).len() as int;
    let c = dt_node_regs(blob).len() as int;
    let d = dt_node_interrupts(blob).len() as int;
    let e = dt_node_interrupt_parents(blob).len() as int;
    let ab = if a < b { a } else { b };
    let cd = if c < d { c } else { d };
    let abcd = if ab < cd { ab } else { cd };
    if abcd < e { abcd } else { e }
}

/// Reads the nodes of a devicetree blob, depth first, as plain values. A node without a
/// `compatible` property or without readable `reg` entries has none of them. The blob must be of
/// the structure that [`blob_ok`] describes ([`crate::blob::check_blob`] tells).
pub fn read_nodes(blob: &[u8]) -> (r: Vec<DtNode>)
    requires
        blob_ok(blob@),
    ensures
        r@.len() == nodes_read(blob@),
        forall|k: int| 0 <= k < r@.len() ==> node_read(blob@, k, #[trigger] r@[k]),
{
    let mut names = fdt_node_names(blob);
    let mut compats = fdt_node_compatibles(blob);
    let mut regs = fdt_node_regs(blob);
    let mut ints = fdt_node_interrupts(blob);
    let mut parents = fdt_node_interrupt_parents(blob);
    let ghost (n0, c0, g0, i0, p0) = (names@, compats@, regs@, ints@, parents@);
    let mut count = names.len();
    if compats.len() < count {
        count = compats.len();
    }
    if regs.len() < count {
        count = regs.len();
    }
    if ints.len() < count {
        count = ints.len();
    }
    if parents.len() < count {
        count = parents.len();
    }
    let mut out: Vec<DtNode> = Vec::new();
    let mut k: usize = 0;
    while k < count
        invariant
            k <= count,
            count as int == nodes_read(blob@),
            count <= n0.len() && count <= c0.len() && count <= g0.len() && count <= i0.len()
                && count <= p0.len(),
            string_views(n0) == dt_node_names(blob@),
            c0.map_values(|c: Option<Vec<String>>| opt_strings_view(c)) == dt_node_compatibles(blob@),
            g0.map_values(|c: Option<Vec<(u64, Option<u64>)>>| opt_view(c)) == dt_node_regs(blob@),
            i0.map_values(|c: Option<Vec<u64>>| opt_view(c)) == dt_node_interrupts(blob@),
            p0.map_values(|c: Option<String>| opt_string_view(c)) == dt_node_interrupt_parents(blob@),
            names@ == n0.skip(k as int),
            compats@ == c0.skip(k as int),
            regs@ == g0.skip(k as int),
            ints@ == i0.skip(k as int),
            parents@ == p0.skip(k as int),
            out@.len() == k,
            forall|j: int| 0 <= j < k ==> node_read(blob@, j, #[trigger] out@[j]),
        decreases count - k,
    {
        let name = names.remove(0);
        let c = compats.remove(0);
        let g = regs.remove(0);
        proof {
            assert(c == c0[k as int]);
            assert(g == g0[k as int]);
        }
        let compatible = match c {
            Some(v) => v,
            None => Vec::new(),
        };
        let reg = match g {
            Some(v) => v,
            None => Vec::new(),
        };
        let interrupts = ints.remove(0);
        let interrupt_parent = parents.remove(0);
        let node = DtNode { name, compatible, reg, interrupts, interrupt_parent };
        proof {
            assert(name == n0[k as int]);
            assert(dt_node_names(blob@)[k as int] == n0[k as int]@);
            assert(dt_node_compatibles(blob@)[k as int] == opt_strings_view(c0[k as int]));
            assert(dt_node_regs(blob@)[k as int] == opt_view(g0[k as int]));
            assert(dt_node_interrupts(blob@)[k as int] == opt_view(i0[k as int]));
            assert(dt_node_interrupt_parents(blob@)[k as int] == opt_string_view(p0[k as int]));
            assert(names@ =~= n0.skip(k as int + 1));
            assert(compats@ =~= c0.skip(k as int + 1));
            assert(regs@ =~= g0.skip(k as int + 1));
            assert(ints@ =~= i0.skip(k as int + 1));
            assert(parents@ =~= p0.skip(k as int + 1));
            assert(string_views(node.compatible@) == strings_of(dt_node_compatibles(blob@)[k as int]));
            assert(node.reg@ == entries_of(dt_node_regs(blob@)[k as int]));
            assert(opt_view(node.interrupts) == dt_node_interrupts(blob@)[k as int]);
            assert(opt_string_view(node.interrupt_parent) == dt_node_interrupt_parents(blob@)[k as int]);
            assert(node_read(blob@, k as int, node));
        }
        out.push(node);
        k = k + 1;
    }
    out
}

} // verus!
