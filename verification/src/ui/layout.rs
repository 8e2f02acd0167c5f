//! The decisions behind the topology map: sockets, the caches and cores
//! within them, a core's labels and colour, and the layout's shares.

use vstd::prelude::*;
use std::collections::HashMap;
use crate::collector::{CoreMetrics, Ratio, WorkloadClassification};
use crate::cpu_list::{cpu_list_ids, parse_cpu_list};
use crate::topology::{CacheBlock, CpuCore, NumaNode};

verus! {

broadcast use vstd::std_specs::hash::group_hash_axioms;

// ---------------------------------------------------------------------------
// Sockets
// ---------------------------------------------------------------------------

/// Whether `ids` lists each package id of the cores once, in increasing
/// order, and nothing else.
pub open spec fn lists_packages(ids: Seq<u32>, cores: Seq<CpuCore>) -> bool {
    &&& forall|i: int, j: int| 0 <= i < j < ids.len() ==> ids[i] < ids[j]
    &&& forall|p: u32|
        ids.contains(p) <==> exists|k: int| 0 <= k < cores.len() && (#[trigger] cores[k]).package_id
            == p
}

/// The sockets of the map: the cores' package ids, sorted, each once.
pub fn package_ids(cores: &Vec<CpuCore>) -> (ids: Vec<u32>)
    ensures
        lists_packages(ids@, cores@),
{
    let mut ids: Vec<u32> = Vec::new();
    let mut i: usize = 0;
    while i < cores.len()
        invariant
            i <= cores.len(),
            lists_packages(ids@, cores@.take(i as int)),
        decreases cores.len() - i,
    {
        let p = cores[i].package_id;
        let mut q = ids.len();
        while q > 0 && ids[q - 1] > p
            invariant
                q <= ids.len(),
                forall|k: int| q <= k < ids.len() ==> ids@[k] > p,
            decreases q,
        {
            q = q - 1;
        }
        let ghost before = ids@;
        if q > 0 && ids[q - 1] == p {
            assert(before[q - 1] == p);
        } else {
            ids.insert(q, p);
            proof {
                before.insert_ensures(q as int, p);
            }
        }
        proof {
            let old_cores = cores@.take(i as int);
            let new_cores = cores@.take(i + 1);
            assert(forall|k: int| 0 <= k < i ==> old_cores[k] == new_cores[k]);
            assert(new_cores[i as int] == cores@[i as int]);
            assert forall|a: int, b: int| 0 <= a < b < ids@.len() implies ids@[a] < ids@[b] by {
                if !(q > 0 && before[q - 1] == p) {
                    if a < q && b == q && q > 0 {
                        assert(before[q - 1] < p);
                        assert(before[a] <= before[q - 1]);
                    }
                }
            }
            assert forall|x: u32|
                ids@.contains(x) <==> exists|k: int|
                    0 <= k < new_cores.len() && (#[trigger] new_cores[k]).package_id == x by {
                if ids@.contains(x) {
                    let j = choose|j: int| 0 <= j < ids@.len() && ids@[j] == x;
                    if x != p {
                        if !(q > 0 && before[q - 1] == p) {
                            if j < q {
                                assert(before[j] == x);
                            } else {
                                assert(before[j - 1] == x);
                            }
                        }
                        assert(before.contains(x));
                        let k = choose|k: int| 0 <= k < old_cores.len() && (#[trigger] old_cores[k]).package_id == x;
                        assert(new_cores[k] == old_cores[k]);
                    } else {
                        assert(new_cores[i as int].package_id == x);
                    }
                }
                if exists|k: int| 0 <= k < new_cores.len() && (#[trigger] new_cores[k]).package_id == x {
                    let k = choose|k: int| 0 <= k < new_cores.len() && (#[trigger] new_cores[k]).package_id == x;
                    if k < i {
                        assert(old_cores[k].package_id == x);
                        assert(before.contains(x));
                        let j = choose|j: int| 0 <= j < before.len() && before[j] == x;
                        if !(q > 0 && before[q - 1] == p) {
                            if j < q {
                                assert(ids@[j] == x);
                            } else {
                                assert(ids@[j + 1] == x);
                            }
                        } else {
                            assert(ids@[j] == x);
                        }
                    } else {
                        if q > 0 && before[q - 1] == p {
                            assert(ids@[q - 1] == x);
                        } else {
                            assert(ids@[q as int] == x);
                        }
                    }
                }
            }
        }
        i = i + 1;
    }
    assert(cores@.take(i as int) =~= cores@);
    ids
}

/// The cores of `cores` in package `package_id`, in order.
pub open spec fn cores_in_package(cores: Seq<CpuCore>, package_id: u32) -> Seq<CpuCore>
    decreases cores.len(),
{
    if cores.len() == 0 {
        cores
    } else if cores.last().package_id == package_id {
        cores_in_package(cores.drop_last(), package_id).push(cores.last())
    } else {
        cores_in_package(cores.drop_last(), package_id)
    }
}

/// The cores of one socket.
pub fn package_cores(cores: &Vec<CpuCore>, package_id: u32) -> (r: Vec<CpuCore>)
    ensures
        r@ == cores_in_package(cores@, package_id),
{
    let mut r: Vec<CpuCore> = Vec::new();
    let mut i: usize = 0;
    while i < cores.len()
        invariant
            i <= cores.len(),
            r@ == cores_in_package(cores@.take(i as int), package_id),
        decreases cores.len() - i,
    {
        assert(cores@.take(i + 1).drop_last() =~= cores@.take(i as int));
        if cores[i].package_id == package_id {
            r.push(cores[i]);
        }
        i = i + 1;
    }
    assert(cores@.take(i as int) =~= cores@);
    r
}

proof fn lemma_cores_in_package_contains(cores: Seq<CpuCore>, p: u32, c: CpuCore)
    ensures
        cores_in_package(cores, p).contains(c) <==> (cores.contains(c) && c.package_id == p),
    decreases cores.len(),
{
    if cores.len() > 0 {
        let rest = cores.drop_last();
        let r = cores_in_package(rest, p);
        lemma_cores_in_package_contains(rest, p, c);
        assert(cores[cores.len() - 1] == cores.last());
        if rest.contains(c) {
            let k = choose|k: int| 0 <= k < rest.len() && rest[k] == c;
            assert(cores[k] == c);
        }
        if cores.contains(c) && c != cores.last() {
            let k = choose|k: int| 0 <= k < cores.len() && cores[k] == c;
            assert(rest[k] == c);
        }
        if cores.last().package_id == p {
            assert(r.push(cores.last())[r.len() as int] == cores.last());
            if r.contains(c) {
                let k = choose|k: int| 0 <= k < r.len() && r[k] == c;
                assert(r.push(cores.last())[k] == c);
            }
            if r.push(cores.last()).contains(c) && c != cores.last() {
                let k = choose|k: int|
                    0 <= k < r.push(cores.last()).len() && r.push(cores.last())[k] == c;
                assert(r[k] == c);
            }
        }
    }
}

/// The map shows each core in exactly one socket, its own: the socket of
/// its package id is listed, holds the core, and no other socket does.
pub proof fn law_each_core_in_its_socket(cores: Seq<CpuCore>, ids: Seq<u32>, c: CpuCore)
    requires
        lists_packages(ids, cores),
        cores.contains(c),
    ensures
        ids.contains(c.package_id),
        cores_in_package(cores, c.package_id).contains(c),
        forall|p: u32| #[trigger] cores_in_package(cores, p).contains(c) ==> p == c.package_id,
{
    let k = choose|k: int| 0 <= k < cores.len() && cores[k] == c;
    assert(cores[k].package_id == c.package_id);
    lemma_cores_in_package_contains(cores, c.package_id, c);
    assert forall|p: u32| #[trigger] cores_in_package(cores, p).contains(c) implies p
        == c.package_id by {
        lemma_cores_in_package_contains(cores, p, c);
    }
}

/// The index of the first node with id `id` at or after `i`, if any.
pub open spec fn first_node_from(nodes: Seq<NumaNode>, i: int, id: u32) -> Option<int>
    decreases nodes.len() - i,
{
    if i < 0 || i >= nodes.len() {
        None
    } else if nodes[i].id == id {
        Some(i)
    } else {
        first_node_from(nodes, i + 1, id)
    }
}

/// The memory of a socket: the first NUMA node whose id is the package id.
pub fn numa_node_for(nodes: &Vec<NumaNode>, package_id: u32) -> (r: Option<NumaNode>)
    ensures
        r == (match first_node_from(nodes@, 0, package_id) {
            Some(i) => Some(nodes@[i]),
            None => None,
        }),
{
    let mut i: usize = 0;
    while i < nodes.len()
        invariant
            i <= nodes.len(),
            first_node_from(nodes@, 0, package_id) == first_node_from(nodes@, i as int, package_id),
        decreases nodes.len() - i,
    {
        if nodes[i].id == package_id {
            return Some(nodes[i]);
        }
        i = i + 1;
    }
    None
}

proof fn lemma_first_node_from(nodes: Seq<NumaNode>, id: u32, i: int)
    requires
        0 <= i <= nodes.len(),
        forall|j: int| 0 <= j < i ==> (#[trigger] nodes[j]).id != id,
    ensures
        match first_node_from(nodes, i, id) {
            Some(k) => i <= k < nodes.len() && nodes[k].id == id && forall|j: int|
                0 <= j < k ==> (#[trigger] nodes[j]).id != id,
            None => forall|j: int| 0 <= j < nodes.len() ==> (#[trigger] nodes[j]).id != id,
        },
    decreases nodes.len() - i,
{
    if i < nodes.len() && nodes[i].id != id {
        lemma_first_node_from(nodes, id, i + 1);
    }
}

/// A socket's memory is the first NUMA node whose id is the package id:
/// the node found has that id and none before it does, and none is found
/// only when no node has it.
pub proof fn law_numa_node_is_first_match(nodes: Seq<NumaNode>, id: u32)
    ensures
        match first_node_from(nodes, 0, id) {
            Some(k) => 0 <= k < nodes.len() && nodes[k].id == id && forall|j: int|
                0 <= j < k ==> (#[trigger] nodes[j]).id != id,
            None => forall|j: int| 0 <= j < nodes.len() ==> (#[trigger] nodes[j]).id != id,
        },
{
    lemma_first_node_from(nodes, id, 0);
}

// ---------------------------------------------------------------------------
// Caches
// ---------------------------------------------------------------------------

fn copy_block(b: &CacheBlock) -> (r: CacheBlock)
    ensures
        r == *b,
{
    CacheBlock {
        level: b.level,
        size: b.size.clone(),
        cache_type: b.cache_type.clone(),
        shared_cpus: b.shared_cpus.clone(),
    }
}

/// Whether the cache's shared-cpu list names one of the cores.
pub open spec fn serves_any(block: CacheBlock, cores: Seq<CpuCore>) -> bool {
    exists|k: int|
        0 <= k < cores.len() && cpu_list_ids(block.shared_cpus@).contains(
            #[trigger] cores[k].logical_id,
        )
}

/// The blocks of `blocks` at cache level `level` that serve one of the
/// cores, in order.
pub open spec fn blocks_serving(blocks: Seq<CacheBlock>, level: u32, cores: Seq<CpuCore>) -> Seq<
    CacheBlock,
>
    decreases blocks.len(),
{
    if blocks.len() == 0 {
        blocks
    } else if blocks.last().level == level && serves_any(blocks.last(), cores) {
        blocks_serving(blocks.drop_last(), level, cores).push(blocks.last())
    } else {
        blocks_serving(blocks.drop_last(), level, cores)
    }
}

/// Whether the list `ids` names one of the cores.
fn names_any(ids: &Vec<u32>, cores: &Vec<CpuCore>) -> (b: bool)
    ensures
        b == exists|k: int| 0 <= k < cores@.len() && ids@.contains(#[trigger] cores@[k].logical_id),
{
    let mut k: usize = 0;
    while k < cores.len()
        invariant
            k <= cores.len(),
            forall|j: int| 0 <= j < k ==> !ids@.contains(#[trigger] cores@[j].logical_id),
        decreases cores.len() - k,
    {
        if list_contains(ids, cores[k].logical_id) {
            return true;
        }
        k = k + 1;
    }
    false
}

/// The caches at one level that serve a socket, given the socket's cores:
/// those whose shared-cpu list names one of them (the map nests a socket's
/// cores in its own L3 caches).
pub fn package_caches(blocks: &Vec<CacheBlock>, level: u32, cores: &Vec<CpuCore>) -> (r: Vec<
    CacheBlock,
>)
    ensures
        r@ == blocks_serving(blocks@, level, cores@),
{
    let mut r: Vec<CacheBlock> = Vec::new();
    let mut i: usize = 0;
    while i < blocks.len()
        invariant
            i <= blocks.len(),
            r@ == blocks_serving(blocks@.take(i as int), level, cores@),
        decreases blocks.len() - i,
    {
        assert(blocks@.take(i + 1).drop_last() =~= blocks@.take(i as int));
        assert(blocks@.take(i + 1).last() == blocks@[i as int]);
        if blocks[i].level == level {
            let ids = parse_cpu_list(blocks[i].shared_cpus.as_str());
            if names_any(&ids, cores) {
                r.push(copy_block(&blocks[i]));
            }
        }
        i = i + 1;
    }
    assert(blocks@.take(i as int) =~= blocks@);
    r
}

/// The caches that the map draws in a socket at one level are exactly the
/// blocks of that level whose shared-cpu list names at least one of the
/// socket's cores, wherever that core stands among them.
pub proof fn law_package_caches_members(
    blocks: Seq<CacheBlock>,
    level: u32,
    cores: Seq<CpuCore>,
    b: CacheBlock,
)
    ensures
        blocks_serving(blocks, level, cores).contains(b) <==> (blocks.contains(b) && b.level
            == level && exists|k: int|
            0 <= k < cores.len() && cpu_list_ids(b.shared_cpus@).contains(
                #[trigger] cores[k].logical_id,
            )),
    decreases blocks.len(),
{
    if blocks.len() > 0 {
        let rest = blocks.drop_last();
        let r = blocks_serving(rest, level, cores);
        law_package_caches_members(rest, level, cores, b);
        assert(blocks[blocks.len() - 1] == blocks.last());
        if rest.contains(b) {
            let k = choose|k: int| 0 <= k < rest.len() && rest[k] == b;
            assert(blocks[k] == b);
        }
        if blocks.contains(b) && b != blocks.last() {
            let k = choose|k: int| 0 <= k < blocks.len() && blocks[k] == b;
            assert(rest[k] == b);
        }
        if blocks.last().level == level && serves_any(blocks.last(), cores) {
            assert(r.push(blocks.last())[r.len() as int] == blocks.last());
            if r.contains(b) {
                let k = choose|k: int| 0 <= k < r.len() && r[k] == b;
                assert(r.push(blocks.last())[k] == b);
            }
            if r.push(blocks.last()).contains(b) && b != blocks.last() {
                let k = choose|k: int|
                    0 <= k < r.push(blocks.last()).len() && r.push(blocks.last())[k] == b;
                assert(r[k] == b);
            }
        }
    }
}

fn list_contains(v: &Vec<u32>, x: u32) -> (b: bool)
    ensures
        b == v@.contains(x),
{
    let mut i: usize = 0;
    while i < v.len()
        invariant
            i <= v.len(),
            forall|k: int| 0 <= k < i ==> v@[k] != x,
        decreases v.len() - i,
    {
        if v[i] == x {
            return true;
        }
        i = i + 1;
    }
    false
}

/// The cores of `cores` whose logical id the list `ids` holds, in order.
pub open spec fn cores_listed(cores: Seq<CpuCore>, ids: Seq<u32>) -> Seq<CpuCore>
    decreases cores.len(),
{
    if cores.len() == 0 {
        cores
    } else if ids.contains(cores.last().logical_id) {
        cores_listed(cores.drop_last(), ids).push(cores.last())
    } else {
        cores_listed(cores.drop_last(), ids)
    }
}

/// The cores that share a cache whose shared-cpu list is `shared_cpus`.
pub fn cores_in_cache(cores: &Vec<CpuCore>, shared_cpus: &str) -> (r: Vec<CpuCore>)
    ensures
        r@ == cores_listed(cores@, cpu_list_ids(shared_cpus@)),
{
    let ids = parse_cpu_list(shared_cpus);
    let mut r: Vec<CpuCore> = Vec::new();
    let mut i: usize = 0;
    while i < cores.len()
        invariant
            i <= cores.len(),
            ids@ == cpu_list_ids(shared_cpus@),
            r@ == cores_listed(cores@.take(i as int), ids@),
        decreases cores.len() - i,
    {
        assert(cores@.take(i + 1).drop_last() =~= cores@.take(i as int));
        if list_contains(&ids, cores[i].logical_id) {
            r.push(cores[i]);
        }
        i = i + 1;
    }
    assert(cores@.take(i as int) =~= cores@);
    r
}

/// The index of the first block at or after `i` of cache level `level`
/// whose shared-cpu list names `cpu_id`, if any.
pub open spec fn first_cache_from(blocks: Seq<CacheBlock>, i: int, level: u32, cpu_id: u32) -> Option<
    int,
>
    decreases blocks.len() - i,
{
    if i < 0 || i >= blocks.len() {
        None
    } else if blocks[i].level == level && cpu_list_ids(blocks[i].shared_cpus@).contains(cpu_id) {
        Some(i)
    } else {
        first_cache_from(blocks, i + 1, level, cpu_id)
    }
}

/// The size of the level-`level` cache of core `cpu_id`, as the first such
/// cache lists it, or `"??"` when no cache of that level lists the core.
pub fn cache_size_label(blocks: &Vec<CacheBlock>, level: u32, cpu_id: u32) -> (label: String)
    ensures
        label@ == (match first_cache_from(blocks@, 0, level, cpu_id) {
            Some(i) => blocks@[i].size@,
            None => "??"@,
        }),
{
    let mut i: usize = 0;
    while i < blocks.len()
        invariant
            i <= blocks.len(),
            first_cache_from(blocks@, 0, level, cpu_id) == first_cache_from(
                blocks@,
                i as int,
                level,
                cpu_id,
            ),
        decreases blocks.len() - i,
    {
        if blocks[i].level == level {
            let ids = parse_cpu_list(blocks[i].shared_cpus.as_str());
            if list_contains(&ids, cpu_id) {
                return blocks[i].size.clone();
            }
        }
        i = i + 1;
    }
    "??".to_owned()
}

/// The cores drawn under a cache are exactly the cores whose logical id its
/// shared-cpu list names.
pub proof fn law_cores_in_cache_members(cores: Seq<CpuCore>, ids: Seq<u32>, c: CpuCore)
    ensures
        cores_listed(cores, ids).contains(c) <==> (cores.contains(c) && ids.contains(
            c.logical_id,
        )),
    decreases cores.len(),
{
    if cores.len() > 0 {
        let rest = cores.drop_last();
        let r = cores_listed(rest, ids);
        law_cores_in_cache_members(rest, ids, c);
        assert(cores[cores.len() - 1] == cores.last());
        if rest.contains(c) {
            let k = choose|k: int| 0 <= k < rest.len() && rest[k] == c;
            assert(cores[k] == c);
        }
        if cores.contains(c) && c != cores.last() {
            let k = choose|k: int| 0 <= k < cores.len() && cores[k] == c;
            assert(rest[k] == c);
        }
        if ids.contains(cores.last().logical_id) {
            assert(r.push(cores.last())[r.len() as int] == cores.last());
            if r.contains(c) {
                let k = choose|k: int| 0 <= k < r.len() && r[k] == c;
                assert(r.push(cores.last())[k] == c);
            }
            if r.push(cores.last()).contains(c) && c != cores.last() {
                let k = choose|k: int|
                    0 <= k < r.push(cores.last()).len() && r.push(cores.last())[k] == c;
                assert(r[k] == c);
            }
        }
    }
}

proof fn lemma_first_cache_from(
    blocks: Seq<CacheBlock>,
    level: u32,
    cpu_id: u32,
    i: int,
)
    requires
        0 <= i <= blocks.len(),
        forall|j: int|
            0 <= j < i ==> !((#[trigger] blocks[j]).level == level && cpu_list_ids(
                blocks[j].shared_cpus@,
            ).contains(cpu_id)),
    ensures
        match first_cache_from(blocks, i, level, cpu_id) {
            Some(k) => i <= k < blocks.len() && blocks[k].level == level && cpu_list_ids(
                blocks[k].shared_cpus@,
            ).contains(cpu_id) && forall|j: int|
                0 <= j < k ==> !((#[trigger] blocks[j]).level == level && cpu_list_ids(
                    blocks[j].shared_cpus@,
                ).contains(cpu_id)),
            None => forall|j: int|
                0 <= j < blocks.len() ==> !((#[trigger] blocks[j]).level == level && cpu_list_ids(
                    blocks[j].shared_cpus@,
                ).contains(cpu_id)),
        },
    decreases blocks.len() - i,
{
    if i < blocks.len() && !(blocks[i].level == level && cpu_list_ids(
        blocks[i].shared_cpus@,
    ).contains(cpu_id)) {
        lemma_first_cache_from(blocks, level, cpu_id, i + 1);
    }
}

/// A core's cache size at a level is read from the first block of that
/// level whose shared-cpu list names the core: the block found is such a
/// block and none before it is, and none is found only when no block is.
pub proof fn law_cache_size_from_first_match(blocks: Seq<CacheBlock>, level: u32, cpu_id: u32)
    ensures
        match first_cache_from(blocks, 0, level, cpu_id) {
            Some(k) => 0 <= k < blocks.len() && blocks[k].level == level && cpu_list_ids(
                blocks[k].shared_cpus@,
            ).contains(cpu_id) && forall|j: int|
                0 <= j < k ==> !((#[trigger] blocks[j]).level == level && cpu_list_ids(
                    blocks[j].shared_cpus@,
                ).contains(cpu_id)),
            None => forall|j: int|
                0 <= j < blocks.len() ==> !((#[trigger] blocks[j]).level == level && cpu_list_ids(
                    blocks[j].shared_cpus@,
                ).contains(cpu_id)),
        },
{
    lemma_first_cache_from(blocks, level, cpu_id, 0);
}

// ---------------------------------------------------------------------------
// A core's labels and colour
// ---------------------------------------------------------------------------

/// Whether a core ran more than 0.5% of the time: `100 * num / den > 0.5`.
pub open spec fn is_active(exec_share: Ratio) -> bool {
    exec_share.den > 0 && 200 * exec_share.num > exec_share.den
}

/// What a core's title shows besides its id.
#[derive(Clone, Copy, Debug, PartialEq, Eq, Structural)]
pub struct CoreLabel {
    /// The process to name; `None` shows `IDLE`.
    pub pid: Option<u32>,
    /// Whether the instructions-per-cycle figure is shown.
    pub show_ipc: bool,
}

/// The title of a core with these metrics (none when the round reported
/// none): an active core shows its process, if known, and its IPC; any
/// other core shows `IDLE` and no IPC.
pub open spec fn label_of(metric: Option<CoreMetrics>) -> CoreLabel {
    match metric {
        Some(m) => if is_active(m.exec_share) {
            CoreLabel { pid: m.current_pid, show_ipc: true }
        } else {
            CoreLabel { pid: None, show_ipc: false }
        },
        None => CoreLabel { pid: None, show_ipc: false },
    }
}

pub fn core_label(metric: Option<CoreMetrics>) -> (l: CoreLabel)
    ensures
        l == label_of(metric),
{
    match metric {
        Some(m) => {
            if m.exec_share.den > 0 && (m.exec_share.num as u128) * 200 > m.exec_share.den as u128 {
                CoreLabel { pid: m.current_pid, show_ipc: true }
            } else {
                CoreLabel { pid: None, show_ipc: false }
            }
        },
        None => CoreLabel { pid: None, show_ipc: false },
    }
}

/// A core's title shows its process and IPC exactly when it ran more than
/// 0.5% of the time (`200 * num > den`, with some time elapsed), and `IDLE`
/// with no IPC otherwise or when the round reported nothing of it.
pub proof fn law_label_shows_busy_cores(metric: Option<CoreMetrics>)
    ensures
        label_of(metric).show_ipc <==> (metric is Some && metric.unwrap().exec_share.den > 0 && 200
            * metric.unwrap().exec_share.num > metric.unwrap().exec_share.den),
        label_of(metric).show_ipc ==> label_of(metric).pid == metric.unwrap().current_pid,
        !label_of(metric).show_ipc ==> label_of(metric).pid is None,
{
}

/// The title is monotone in the share of time a core ran: a core that ran
/// at least as much of the same time as an active one is shown active too,
/// and so is a core that ran all of the time.
pub proof fn law_label_monotone(m1: CoreMetrics, m2: CoreMetrics)
    ensures
        label_of(Some(m1)).show_ipc && m2.exec_share.den == m1.exec_share.den
            && m2.exec_share.num >= m1.exec_share.num ==> label_of(Some(m2)).show_ipc,
        m2.exec_share.den > 0 && m2.exec_share.num >= m2.exec_share.den ==> label_of(
            Some(m2),
        ).show_ipc && label_of(Some(m2)).pid == m2.current_pid,
{
}

/// The metrics that a round reported for core `cpu_id`, if any.
pub fn metrics_for(metrics: &HashMap<u32, CoreMetrics>, cpu_id: u32) -> (m: Option<CoreMetrics>)
    ensures
        m == (if metrics@.contains_key(cpu_id) {
            Some(metrics@[cpu_id])
        } else {
            None
        }),
{
    match metrics.get(&cpu_id) {
        Some(m) => Some(*m),
        None => None,
    }
}

/// The classification shown for a core: the reported one, or `Idle` when the
/// round reported none.
pub open spec fn shown_class(metric: Option<CoreMetrics>) -> WorkloadClassification {
    match metric {
        Some(m) => m.classification,
        None => WorkloadClassification::Idle,
    }
}

/// The colour, as red, green and blue, in which the map draws a class.
pub open spec fn class_rgb(c: WorkloadClassification) -> (u8, u8, u8) {
    match c {
        WorkloadClassification::Idle => (49, 50, 68),
        WorkloadClassification::ComputeBound => (166, 227, 161),
        WorkloadClassification::MemoryBound => (249, 226, 175),
        WorkloadClassification::ContentionBound => (243, 139, 168),
    }
}

/// The colour of a class.
pub fn classification_rgb(c: WorkloadClassification) -> (rgb: (u8, u8, u8))
    ensures
        rgb == class_rgb(c),
{
    match c {
        WorkloadClassification::Idle => (49, 50, 68),
        WorkloadClassification::ComputeBound => (166, 227, 161),
        WorkloadClassification::MemoryBound => (249, 226, 175),
        WorkloadClassification::ContentionBound => (243, 139, 168),
    }
}

/// The colour of a core with these metrics.
pub fn core_rgb(metric: Option<CoreMetrics>) -> (rgb: (u8, u8, u8))
    ensures
        rgb == class_rgb(shown_class(metric)),
{
    match metric {
        Some(m) => classification_rgb(m.classification),
        None => classification_rgb(WorkloadClassification::Idle),
    }
}

// ---------------------------------------------------------------------------
// Shares of the screen
// ---------------------------------------------------------------------------

/// The percentage that each of `count` equal parts gets: 100 over the count
/// taken as a `u16` (which keeps its low 16 bits).
pub open spec fn share_of(count: usize) -> u16 {
    (100int / (count % 65536) as int) as u16
}

/// The percentage of each of `count` equal parts (sockets, caches, rows).
pub fn share_percent(count: usize) -> (p: u16)
    requires
        count % 65536 != 0,
    ensures
        p == share_of(count),
{
    let low = (count % 65536) as u16;
    100 / low
}

/// The rows of a grid of two columns that holds `cores` cores: half the
/// count rounded up, at most `u16::MAX`.
pub open spec fn rows_for(cores: usize) -> u16 {
    if (cores + 1) / 2 > u16::MAX {
        u16::MAX
    } else {
        ((cores + 1) / 2) as u16
    }
}

pub fn grid_rows(cores: usize) -> (rows: u16)
    ensures
        rows == rows_for(cores),
{
    let half = cores / 2 + cores % 2;
    if half > 0xffff {
        0xffff
    } else {
        half as u16
    }
}

/// The core in row `row`, column `column` of the two-column grid, if there
/// is one.
pub fn grid_cell(row: usize, column: usize, cores: usize) -> (idx: Option<usize>)
    requires
        column < 2,
    ensures
        idx == (if row * 2 + column < cores {
            Some((row * 2 + column) as usize)
        } else {
            None
        }),
{
    if row > cores / 2 {
        return None;
    }
    let i = row * 2 + column;
    if i < cores {
        Some(i)
    } else {
        None
    }
}

/// The margin on each side of a centred area that takes `percent` of the
/// screen.
pub fn centered_margin(percent: u16) -> (m: u16)
    requires
        percent <= 100,
    ensures
        m == (100 - percent) / 2,
        2 * m + percent <= 100,
{
    (100 - percent) / 2
}

/// Each class is drawn in a colour of its own.
pub proof fn law_classes_have_distinct_colours(a: WorkloadClassification, b: WorkloadClassification)
    ensures
        class_rgb(a) == class_rgb(b) <==> a == b,
{
}

/// The two-column grid holds every core once: core `i` stands in row
/// `i / 2`, column `i % 2`, within the rows of the grid, and the grid has
/// no empty row (while the rows fit in a `u16`).
pub proof fn law_grid_holds_every_core(cores: usize, i: usize)
    requires
        (cores + 1) / 2 <= u16::MAX,
    ensures
        i < cores ==> (i / 2) < rows_for(cores) as int && (i / 2) * 2 + i % 2 == i,
        rows_for(cores) > 0 ==> 2 * (rows_for(cores) - 1) < cores,
        2 * rows_for(cores) >= cores,
{
}

} // verus!
