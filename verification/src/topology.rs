//! The machine's topology as sysfs describes it: cores, caches and NUMA
//! nodes. The caller walks `/sys/devices/system/cpu` and
//! `/sys/devices/system/node` and hands each file's text to the functions
//! here, which decide what the text says and keep the topology's rules.

use vstd::prelude::*;
use vstd::string::StrSliceExecFns;
use crate::collector::lemma_wrapping_add_mod;
use crate::text::{
    all_digits, decimal_value, lemma_parse_u32_digits, is_digit, chars_of, contains_chars, contains_seq, lines, lines_of, starts_with, starts_with_chars,
    sub_chars, texts, trim, trim_bounds, u32_or_zero, u32_or_zero_chars, u64_or_zero,
    u64_or_zero_chars, words, words_of,
};

verus! {

/// One logical CPU.
#[derive(Clone, Copy, Debug, PartialEq, Eq, Structural)]
pub struct CpuCore {
    pub logical_id: u32,
    pub physical_id: u32,
    pub package_id: u32,
}

/// One cache, shared by the CPUs that `shared_cpus` lists.
#[derive(Clone, Debug)]
pub struct CacheBlock {
    pub level: u32,
    pub size: String,
    pub cache_type: String,
    pub shared_cpus: String,
}

/// One NUMA node's memory, in kB.
#[derive(Clone, Copy, Debug, PartialEq, Eq, Structural)]
pub struct NumaNode {
    pub id: u32,
    pub total_kb: u64,
    /// What is available: free, inactive and reclaimable kernel memory.
    pub free_kb: u64,
}

/// The cores, caches and NUMA nodes of the machine.
#[derive(Clone, Debug)]
pub struct SystemTopology {
    pub cores: Vec<CpuCore>,
    pub cache_blocks: Vec<CacheBlock>,
    pub numa_nodes: Vec<NumaNode>,
}

// ---------------------------------------------------------------------------
// Directory names
// ---------------------------------------------------------------------------

/// Whether `char::is_numeric` holds of `c` (Unicode general category Nd, Nl
/// or No).
pub uninterp spec fn char_is_numeric(c: char) -> bool;

/// `char::is_numeric`.
#[verifier::external_body]
fn is_numeric(c: char) -> (b: bool)
    ensures
        b == char_is_numeric(c),
        0x30 <= c as u32 <= 0x39 ==> b,
{
    c.is_numeric()
}

/// Whether `char::is_numeric` holds of `c`: always of an ASCII digit, and
/// of any other character as `char_is_numeric` says.
pub open spec fn numeric(c: char) -> bool {
    is_digit(c) || char_is_numeric(c)
}

/// The index in a sysfs entry name such as `cpu12` or `node0`: when `name`
/// is `prefix` followed by numeric characters only, the number they write
/// (0 when they write none that `str::parse` reads); otherwise none.
pub open spec fn entry_index(name: Seq<char>, prefix: Seq<char>) -> Option<u32> {
    let rest = name.subrange(prefix.len() as int, name.len() as int);
    if starts_with(name, prefix) && (forall|i: int| 0 <= i < rest.len() ==> numeric(
        #[trigger] rest[i],
    )) {
        Some(u32_or_zero(rest))
    } else {
        None
    }
}

/// A sysfs entry named by the prefix and then a decimal number, such as
/// `cpu12` or `node3`, has that whole number as its index, and a name that
/// does not start with the prefix has none.
pub proof fn law_entry_index_reads_number(name: Seq<char>, prefix: Seq<char>, digits: Seq<char>)
    ensures
        name == prefix + digits && digits.len() > 0 && all_digits(digits) && decimal_value(digits)
            <= u32::MAX ==> entry_index(name, prefix) == Some(decimal_value(digits) as u32),
        !starts_with(name, prefix) ==> entry_index(name, prefix) is None,
{
    if name == prefix + digits && digits.len() > 0 && all_digits(digits) && decimal_value(digits)
        <= u32::MAX {
        assert(name.subrange(0, prefix.len() as int) =~= prefix);
        assert(name.subrange(prefix.len() as int, name.len() as int) =~= digits);
        lemma_parse_u32_digits(digits);
    }
}

fn entry_index_of(name: &str, prefix: &Vec<char>) -> (r: Option<u32>)
    ensures
        r == entry_index(name@, prefix@),
{
    let chars = chars_of(name);
    if !starts_with_chars(&chars, prefix) {
        return None;
    }
    let rest = sub_chars(&chars, prefix.len(), chars.len());
    let mut i: usize = 0;
    while i < rest.len()
        invariant
            i <= rest.len(),
            rest@ == name@.subrange(prefix@.len() as int, name@.len() as int),
            forall|k: int| 0 <= k < i ==> numeric(#[trigger] rest@[k]),
        decreases rest.len() - i,
    {
        if !is_numeric(rest[i]) {
            return None;
        }
        i = i + 1;
    }
    Some(u32_or_zero_chars(&rest))
}

/// The logical id in a name under `/sys/devices/system/cpu`, when the name is
/// `cpu` and a number.
pub fn cpu_dir_id(name: &str) -> (r: Option<u32>)
    ensures
        r == entry_index(name@, seq!['c', 'p', 'u']),
{
    let prefix = vec!['c', 'p', 'u'];
    entry_index_of(name, &prefix)
}

/// The node id in a name under `/sys/devices/system/node`, when the name is
/// `node` and a number.
pub fn node_dir_id(name: &str) -> (r: Option<u32>)
    ensures
        r == entry_index(name@, seq!['n', 'o', 'd', 'e']),
{
    let prefix = vec!['n', 'o', 'd', 'e'];
    entry_index_of(name, &prefix)
}

/// `text` without leading and trailing white space.
fn trimmed(text: &str) -> (t: String)
    ensures
        t@ == trim(text@),
{
    let chars = chars_of(text);
    let (a, b) = trim_bounds(&chars);
    text.substring_char(a, b).to_owned()
}

/// The number in a sysfs id file's text, such as `physical_package_id`:
/// the trimmed text read as a `u32`, 0 when it is none.
pub open spec fn id_in_text(text: Seq<char>) -> u32 {
    u32_or_zero(trim(text))
}

pub fn parse_id_text(text: &str) -> (id: u32)
    ensures
        id == id_in_text(text@),
{
    let chars = chars_of(text);
    let (a, b) = trim_bounds(&chars);
    let t = sub_chars(&chars, a, b);
    u32_or_zero_chars(&t)
}

// ---------------------------------------------------------------------------
// NUMA memory
// ---------------------------------------------------------------------------

/// The counters of a node's `meminfo` that the available memory is made of.
#[derive(Clone, Copy, Debug, PartialEq, Eq, Structural)]
pub struct MemInfo {
    pub total_kb: u64,
    pub free_kb: u64,
    pub inactive_kb: u64,
    pub kreclaimable_kb: u64,
    pub sreclaimable_kb: u64,
}

pub open spec fn mem_total_key() -> Seq<char> {
    seq!['M', 'e', 'm', 'T', 'o', 't', 'a', 'l', ':']
}

pub open spec fn mem_free_key() -> Seq<char> {
    seq!['M', 'e', 'm', 'F', 'r', 'e', 'e', ':']
}

pub open spec fn inactive_key() -> Seq<char> {
    seq!['I', 'n', 'a', 'c', 't', 'i', 'v', 'e', ':']
}

pub open spec fn kreclaimable_key() -> Seq<char> {
    seq!['K', 'R', 'e', 'c', 'l', 'a', 'i', 'm', 'a', 'b', 'l', 'e', ':']
}

pub open spec fn sreclaimable_key() -> Seq<char> {
    seq!['S', 'R', 'e', 'c', 'l', 'a', 'i', 'm', 'a', 'b', 'l', 'e', ':']
}

/// The counters after one more `meminfo` line (`Node 0 MemFree: 1234 kB`):
/// a line of at least four fields sets the first counter whose key it
/// contains, trying `MemTotal:`, `MemFree:`, `Inactive:`, `KReclaimable:`,
/// `SReclaimable:` in that order, to its fourth field read as a number (0 when
/// it is none).
pub open spec fn meminfo_step(m: MemInfo, line: Seq<char>) -> MemInfo {
    let f = words(line);
    if f.len() < 4 {
        m
    } else {
        let v = u64_or_zero(f[3]);
        if contains_seq(line, mem_total_key()) {
            MemInfo { total_kb: v, ..m }
        } else if contains_seq(line, mem_free_key()) {
            MemInfo { free_kb: v, ..m }
        } else if contains_seq(line, inactive_key()) {
            MemInfo { inactive_kb: v, ..m }
        } else if contains_seq(line, kreclaimable_key()) {
            MemInfo { kreclaimable_kb: v, ..m }
        } else if contains_seq(line, sreclaimable_key()) {
            MemInfo { sreclaimable_kb: v, ..m }
        } else {
            m
        }
    }
}

/// `meminfo_step` over the lines, first to last.
pub open spec fn meminfo_fold(m: MemInfo, ls: Seq<Seq<char>>) -> MemInfo
    decreases ls.len(),
{
    if ls.len() == 0 {
        m
    } else {
        meminfo_fold(meminfo_step(m, ls[0]), ls.drop_first())
    }
}

pub open spec fn zero_meminfo() -> MemInfo {
    MemInfo { total_kb: 0, free_kb: 0, inactive_kb: 0, kreclaimable_kb: 0, sreclaimable_kb: 0 }
}

/// The counters in the text of a node's `meminfo`; 0 for one it lacks.
pub open spec fn meminfo_of(content: Seq<char>) -> MemInfo {
    meminfo_fold(zero_meminfo(), lines(content))
}

/// Available memory: free, plus inactive (page cache), plus reclaimable
/// kernel memory, which is `KReclaimable` when it is not 0 and
/// `SReclaimable` otherwise; the sum wraps at 2^64.
pub open spec fn available_kb(m: MemInfo) -> u64 {
    let reclaimable = if m.kreclaimable_kb > 0 {
        m.kreclaimable_kb
    } else {
        m.sreclaimable_kb
    };
    m.free_kb.wrapping_add(m.inactive_kb).wrapping_add(reclaimable)
}

/// A node's available memory is its free and inactive memory and its
/// reclaimable kernel memory (`KReclaimable` where it is not 0, else
/// `SReclaimable`), modulo 2^64.
pub proof fn law_available_memory(m: MemInfo)
    ensures
        available_kb(m) as int == (m.free_kb + m.inactive_kb + (if m.kreclaimable_kb > 0 {
            m.kreclaimable_kb
        } else {
            m.sreclaimable_kb
        })) % 0x1_0000_0000_0000_0000,
{
    vstd::arithmetic::div_mod::lemma_small_mod(m.free_kb as nat, 0x1_0000_0000_0000_0000nat);
    lemma_wrapping_add_mod(m.free_kb, m.inactive_kb, m.free_kb as int);
    let r = if m.kreclaimable_kb > 0 {
        m.kreclaimable_kb
    } else {
        m.sreclaimable_kb
    };
    lemma_wrapping_add_mod(m.free_kb.wrapping_add(m.inactive_kb), r, m.free_kb + m.inactive_kb);
}

fn meminfo_line(m: MemInfo, line: &Vec<char>, keys: &Vec<Vec<char>>) -> (r: MemInfo)
    requires
        keys.len() == 5,
        keys@[0]@ == mem_total_key(),
        keys@[1]@ == mem_free_key(),
        keys@[2]@ == inactive_key(),
        keys@[3]@ == kreclaimable_key(),
        keys@[4]@ == sreclaimable_key(),
    ensures
        r == meminfo_step(m, line@),
{
    let f = words_of(line);
    if f.len() < 4 {
        return m;
    }
    assert(texts(f@)[3] == f@[3]@);
    let v = u64_or_zero_chars(&f[3]);
    if contains_chars(line, &keys[0]) {
        MemInfo { total_kb: v, ..m }
    } else if contains_chars(line, &keys[1]) {
        MemInfo { free_kb: v, ..m }
    } else if contains_chars(line, &keys[2]) {
        MemInfo { inactive_kb: v, ..m }
    } else if contains_chars(line, &keys[3]) {
        MemInfo { kreclaimable_kb: v, ..m }
    } else if contains_chars(line, &keys[4]) {
        MemInfo { sreclaimable_kb: v, ..m }
    } else {
        m
    }
}

/// The counters in the text of a node's `meminfo`.
pub fn parse_meminfo(content: &str) -> (m: MemInfo)
    ensures
        m == meminfo_of(content@),
{
    let keys = vec![
        vec!['M', 'e', 'm', 'T', 'o', 't', 'a', 'l', ':'],
        vec!['M', 'e', 'm', 'F', 'r', 'e', 'e', ':'],
        vec!['I', 'n', 'a', 'c', 't', 'i', 'v', 'e', ':'],
        vec!['K', 'R', 'e', 'c', 'l', 'a', 'i', 'm', 'a', 'b', 'l', 'e', ':'],
        vec!['S', 'R', 'e', 'c', 'l', 'a', 'i', 'm', 'a', 'b', 'l', 'e', ':'],
    ];
    let chars = chars_of(content);
    let ls = lines_of(&chars);
    let ghost all = texts(ls@);
    let mut m = MemInfo {
        total_kb: 0,
        free_kb: 0,
        inactive_kb: 0,
        kreclaimable_kb: 0,
        sreclaimable_kb: 0,
    };
    let mut k: usize = 0;
    assert(all.skip(0) =~= all);
    while k < ls.len()
        invariant
            k <= ls.len(),
            all == texts(ls@),
            all == lines(content@),
            keys.len() == 5,
            keys@[0]@ == mem_total_key(),
            keys@[1]@ == mem_free_key(),
            keys@[2]@ == inactive_key(),
            keys@[3]@ == kreclaimable_key(),
            keys@[4]@ == sreclaimable_key(),
            meminfo_fold(zero_meminfo(), all) == meminfo_fold(m, all.skip(k as int)),
        decreases ls.len() - k,
    {
        assert(all.skip(k as int)[0] == ls@[k as int]@);
        assert(all.skip(k as int).drop_first() =~= all.skip(k + 1));
        m = meminfo_line(m, &ls[k], &keys);
        k = k + 1;
    }
    assert(all.skip(k as int) =~= Seq::<Seq<char>>::empty());
    m
}

impl NumaNode {
    /// The node `id` as its `meminfo` text describes it.
    pub fn from_meminfo(id: u32, content: &str) -> (n: NumaNode)
        ensures
            n.id == id,
            n.total_kb == meminfo_of(content@).total_kb,
            n.free_kb == available_kb(meminfo_of(content@)),
    {
        let m = parse_meminfo(content);
        let reclaimable = if m.kreclaimable_kb > 0 {
            m.kreclaimable_kb
        } else {
            m.sreclaimable_kb
        };
        NumaNode {
            id,
            total_kb: m.total_kb,
            free_kb: m.free_kb.wrapping_add(m.inactive_kb).wrapping_add(reclaimable),
        }
    }

    /// Memory in use: total less available, 0 when more is available than
    /// the total.
    pub fn used_kb(&self) -> (u: u64)
        ensures
            u == (if self.total_kb >= self.free_kb {
                self.total_kb - self.free_kb
            } else {
                0
            }),
    {
        self.total_kb.saturating_sub(self.free_kb)
    }
}

// ---------------------------------------------------------------------------
// Caches
// ---------------------------------------------------------------------------

/// Whether `b` is the cache that the trimmed texts of a cache index's
/// `level`, `size`, `type` and shared-cpu files describe.
pub open spec fn describes(
    b: CacheBlock,
    level: Seq<char>,
    size: Seq<char>,
    cache_type: Seq<char>,
    shared: Seq<char>,
) -> bool {
    &&& b.level == id_in_text(level)
    &&& b.size@ == trim(size)
    &&& b.cache_type@ == trim(cache_type)
    &&& b.shared_cpus@ == trim(shared)
}

/// Two entries for one cache: the same level, shared by the same CPUs.
pub open spec fn same_cache(a: CacheBlock, b: CacheBlock) -> bool {
    a.level == b.level && a.shared_cpus@ == b.shared_cpus@
}

/// Whether no two of the blocks are entries for one cache.
pub open spec fn caches_distinct(bs: Seq<CacheBlock>) -> bool {
    forall|i: int, j: int|
        0 <= i < j < bs.len() ==> !same_cache(#[trigger] bs[i], #[trigger] bs[j])
}

/// Whether the blocks hold an entry for the same cache as `b`.
pub open spec fn has_cache(bs: Seq<CacheBlock>, b: CacheBlock) -> bool {
    exists|i: int| 0 <= i < bs.len() && same_cache(#[trigger] bs[i], b)
}

fn same_cache_exec(a: &CacheBlock, b: &CacheBlock) -> (r: bool)
    ensures
        r == same_cache(*a, *b),
{
    a.level == b.level && a.shared_cpus == b.shared_cpus
}

// ---------------------------------------------------------------------------
// Cores
// ---------------------------------------------------------------------------

/// Whether the cores come in order of logical id.
pub open spec fn sorted_by_logical_id(s: Seq<CpuCore>) -> bool {
    forall|i: int, j: int|
        0 <= i < j < s.len() ==> (#[trigger] s[i]).logical_id <= (#[trigger] s[j]).logical_id
}

/// The cores of `s` whose logical id is `id`, in their order in `s`.
pub open spec fn cores_with_id(s: Seq<CpuCore>, id: u32) -> Seq<CpuCore>
    decreases s.len(),
{
    if s.len() == 0 {
        s
    } else if s.last().logical_id == id {
        cores_with_id(s.drop_last(), id).push(s.last())
    } else {
        cores_with_id(s.drop_last(), id)
    }
}

proof fn lemma_cores_with_id_append(a: Seq<CpuCore>, b: Seq<CpuCore>, id: u32)
    ensures
        cores_with_id(a + b, id) == cores_with_id(a, id) + cores_with_id(b, id),
    decreases b.len(),
{
    if b.len() == 0 {
        assert(a + b =~= a);
        assert(cores_with_id(a, id) + cores_with_id(b, id) =~= cores_with_id(a, id));
    } else {
        assert((a + b).drop_last() =~= a + b.drop_last());
        lemma_cores_with_id_append(a, b.drop_last(), id);
        if b.last().logical_id == id {
            assert(cores_with_id(a, id) + cores_with_id(b, id) =~= (cores_with_id(a, id)
                + cores_with_id(b.drop_last(), id)).push(b.last()));
        }
    }
}

proof fn lemma_cores_with_id_none(s: Seq<CpuCore>, id: u32)
    requires
        forall|i: int| 0 <= i < s.len() ==> (#[trigger] s[i]).logical_id != id,
    ensures
        cores_with_id(s, id) == Seq::<CpuCore>::empty(),
    decreases s.len(),
{
    if s.len() > 0 {
        lemma_cores_with_id_none(s.drop_last(), id);
    }
}

proof fn lemma_insert_keeps_groups(r: Seq<CpuCore>, p: int, x: CpuCore, id: u32)
    requires
        0 <= p <= r.len(),
        forall|i: int| p <= i < r.len() ==> (#[trigger] r[i]).logical_id > x.logical_id,
    ensures
        cores_with_id(r.insert(p, x), id) == cores_with_id(r.push(x), id),
{
    reveal_with_fuel(cores_with_id, 2);
    let a = r.subrange(0, p);
    let b = r.subrange(p, r.len() as int);
    assert(r.insert(p, x) =~= (a + seq![x]) + b);
    assert(r =~= a + b);
    assert(r.push(x) =~= a + b + seq![x]);
    lemma_cores_with_id_append(a + seq![x], b, id);
    lemma_cores_with_id_append(a, seq![x], id);
    lemma_cores_with_id_append(a + b, seq![x], id);
    lemma_cores_with_id_append(a, b, id);
    assert(seq![x].drop_last() =~= Seq::<CpuCore>::empty());
    if x.logical_id == id {
        assert forall|i: int| 0 <= i < b.len() implies (#[trigger] b[i]).logical_id != id by {
            assert(b[i] == r[p + i]);
        }
        lemma_cores_with_id_none(b, id);
        assert(cores_with_id(a, id) + cores_with_id(seq![x], id) + Seq::<CpuCore>::empty()
            =~= cores_with_id(a, id) + cores_with_id(seq![x], id));
        assert(cores_with_id(a, id) + Seq::<CpuCore>::empty() =~= cores_with_id(a, id));
    } else {
        assert(cores_with_id(seq![x], id) =~= Seq::<CpuCore>::empty());
        assert(cores_with_id(a, id) + Seq::<CpuCore>::empty() =~= cores_with_id(a, id));
        assert(cores_with_id(a, id) + cores_with_id(b, id) + Seq::<CpuCore>::empty()
            =~= cores_with_id(a, id) + cores_with_id(b, id));
    }
}

proof fn lemma_cores_with_id_contains(s: Seq<CpuCore>, id: u32, c: CpuCore)
    ensures
        cores_with_id(s, id).contains(c) <==> (s.contains(c) && c.logical_id == id),
    decreases s.len(),
{
    if s.len() > 0 {
        let r = cores_with_id(s.drop_last(), id);
        lemma_cores_with_id_contains(s.drop_last(), id, c);
        if s.drop_last().contains(c) {
            let k = choose|k: int| 0 <= k < s.drop_last().len() && s.drop_last()[k] == c;
            assert(s[k] == c);
        }
        if s.contains(c) && c != s.last() {
            let k = choose|k: int| 0 <= k < s.len() && s[k] == c;
            assert(s.drop_last()[k] == c);
        }
        if s.last().logical_id == id {
            if r.push(s.last()).contains(c) && c != s.last() {
                let k = choose|k: int| 0 <= k < r.push(s.last()).len() && r.push(s.last())[k] == c;
                assert(r[k] == c);
            }
            if r.contains(c) {
                let k = choose|k: int| 0 <= k < r.len() && r[k] == c;
                assert(r.push(s.last())[k] == c);
            }
            assert(r.push(s.last())[r.len() as int] == s.last());
            assert(s[s.len() - 1] == s.last());
        } else {
            assert(s[s.len() - 1] == s.last());
        }
    }
}

proof fn lemma_count_in_group(s: Seq<CpuCore>, c: CpuCore)
    ensures
        s.to_multiset().count(c) == cores_with_id(s, c.logical_id).to_multiset().count(c),
    decreases s.len(),
{
    broadcast use vstd::seq_lib::group_to_multiset_ensures;

    if s.len() == 0 {
        assert(cores_with_id(s, c.logical_id) == s);
    } else {
        let rest = s.drop_last();
        lemma_count_in_group(rest, c);
        assert(s =~= rest.push(s.last()));
        assert(s.to_multiset() =~= rest.to_multiset().insert(s.last()));
        let g = cores_with_id(rest, c.logical_id);
        if s.last().logical_id == c.logical_id {
            assert(cores_with_id(s, c.logical_id).to_multiset() =~= g.to_multiset().insert(
                s.last(),
            ));
        }
    }
}

/// Two lists of cores with the same cores of each logical id, in the same
/// order, hold the same cores, each as often: ordering the cores loses and
/// adds none.
pub proof fn law_sorting_keeps_cores(a: Seq<CpuCore>, b: Seq<CpuCore>)
    requires
        forall|id: u32| cores_with_id(a, id) == cores_with_id(b, id),
    ensures
        forall|c: CpuCore| a.contains(c) <==> b.contains(c),
        a.to_multiset() == b.to_multiset(),
{
    assert forall|c: CpuCore| a.contains(c) <==> b.contains(c) by {
        lemma_cores_with_id_contains(a, c.logical_id, c);
        lemma_cores_with_id_contains(b, c.logical_id, c);
        assert(cores_with_id(a, c.logical_id) == cores_with_id(b, c.logical_id));
    }
    assert forall|c: CpuCore| a.to_multiset().count(c) == b.to_multiset().count(c) by {
        lemma_count_in_group(a, c);
        lemma_count_in_group(b, c);
        assert(cores_with_id(a, c.logical_id) == cores_with_id(b, c.logical_id));
    }
    assert(a.to_multiset() =~= b.to_multiset());
}

/// Whether no two of the cores share a logical id.
pub open spec fn distinct_logical_ids(s: Seq<CpuCore>) -> bool {
    forall|i: int, j: int|
        0 <= i < j < s.len() ==> (#[trigger] s[i]).logical_id != (#[trigger] s[j]).logical_id
}

/// Two lists sorted by logical id with the same cores of each id, in the
/// same order, are the same list.
proof fn lemma_sorted_groups_unique(s: Seq<CpuCore>, t: Seq<CpuCore>)
    requires
        sorted_by_logical_id(s),
        sorted_by_logical_id(t),
        forall|id: u32| cores_with_id(s, id) == cores_with_id(t, id),
    ensures
        s == t,
    decreases s.len() + t.len(),
{
    if s.len() == 0 && t.len() == 0 {
        assert(s =~= t);
    } else if s.len() == 0 {
        let y = t.last();
        lemma_cores_with_id_contains(t, y.logical_id, y);
        lemma_cores_with_id_contains(s, y.logical_id, y);
        assert(t[t.len() - 1] == y);
        assert(cores_with_id(s, y.logical_id) == cores_with_id(t, y.logical_id));
    } else if t.len() == 0 {
        let x = s.last();
        lemma_cores_with_id_contains(t, x.logical_id, x);
        lemma_cores_with_id_contains(s, x.logical_id, x);
        assert(s[s.len() - 1] == x);
        assert(cores_with_id(s, x.logical_id) == cores_with_id(t, x.logical_id));
    } else {
        let x = s.last();
        let y = t.last();
        assert(s[s.len() - 1] == x);
        assert(t[t.len() - 1] == y);
        lemma_cores_with_id_contains(s, y.logical_id, y);
        lemma_cores_with_id_contains(t, y.logical_id, y);
        lemma_cores_with_id_contains(s, x.logical_id, x);
        lemma_cores_with_id_contains(t, x.logical_id, x);
        assert(cores_with_id(s, y.logical_id) == cores_with_id(t, y.logical_id));
        assert(cores_with_id(s, x.logical_id) == cores_with_id(t, x.logical_id));
        // the largest id comes last in both lists
        let ky = choose|k: int| 0 <= k < s.len() && s[k] == y;
        let kx = choose|k: int| 0 <= k < t.len() && t[k] == x;
        assert(s[ky].logical_id <= x.logical_id);
        assert(t[kx].logical_id <= y.logical_id);
        let m = x.logical_id;
        assert(y.logical_id == m);
        // the last core of that id is the last core of each list
        assert(cores_with_id(s, m) == cores_with_id(s.drop_last(), m).push(x));
        assert(cores_with_id(t, m) == cores_with_id(t.drop_last(), m).push(y));
        assert(cores_with_id(s, m).last() == x);
        assert(x == y);
        assert(cores_with_id(s.drop_last(), m) =~= cores_with_id(s, m).drop_last());
        assert(cores_with_id(t.drop_last(), m) =~= cores_with_id(t, m).drop_last());
        assert forall|id: u32|
            cores_with_id(s.drop_last(), id) == cores_with_id(t.drop_last(), id) by {
            assert(cores_with_id(s, id) == cores_with_id(t, id));
            if id != m {
                assert(cores_with_id(s, id) == cores_with_id(s.drop_last(), id));
                assert(cores_with_id(t, id) == cores_with_id(t.drop_last(), id));
            }
        }
        assert forall|i: int, j: int| 0 <= i < j < s.drop_last().len() implies (
        #[trigger] s.drop_last()[i]).logical_id <= (#[trigger] s.drop_last()[j]).logical_id by {
            assert(s[i] == s.drop_last()[i]);
            assert(s[j] == s.drop_last()[j]);
        }
        assert forall|i: int, j: int| 0 <= i < j < t.drop_last().len() implies (
        #[trigger] t.drop_last()[i]).logical_id <= (#[trigger] t.drop_last()[j]).logical_id by {
            assert(t[i] == t.drop_last()[i]);
            assert(t[j] == t.drop_last()[j]);
        }
        lemma_sorted_groups_unique(s.drop_last(), t.drop_last());
        assert(s =~= s.drop_last().push(x));
        assert(t =~= t.drop_last().push(y));
    }
}

/// The cores of one id in a list with distinct ids: the one core with that
/// id, or none.
proof fn lemma_group_of_distinct(s: Seq<CpuCore>, id: u32)
    requires
        distinct_logical_ids(s),
    ensures
        (exists|k: int| 0 <= k < s.len() && s[k].logical_id == id) ==> cores_with_id(s, id)
            == seq![s[choose|k: int| 0 <= k < s.len() && s[k].logical_id == id]],
        !(exists|k: int| 0 <= k < s.len() && s[k].logical_id == id) ==> cores_with_id(s, id)
            == Seq::<CpuCore>::empty(),
    decreases s.len(),
{
    if s.len() > 0 {
        let rest = s.drop_last();
        assert forall|i: int, j: int| 0 <= i < j < rest.len() implies (
        #[trigger] rest[i]).logical_id != (#[trigger] rest[j]).logical_id by {
            assert(rest[i] == s[i]);
            assert(rest[j] == s[j]);
        }
        lemma_group_of_distinct(rest, id);
        let last = s.len() - 1;
        assert(s[last] == s.last());
        if s.last().logical_id == id {
            assert forall|k: int| 0 <= k < rest.len() implies rest[k].logical_id != id by {
                assert(rest[k] == s[k]);
            }
            assert(!(exists|k: int| 0 <= k < rest.len() && rest[k].logical_id == id));
            let k0 = choose|k: int| 0 <= k < s.len() && s[k].logical_id == id;
            assert(k0 == last);
            assert(cores_with_id(s, id) =~= seq![s.last()]);
        } else {
            if exists|k: int| 0 <= k < s.len() && s[k].logical_id == id {
                let k0 = choose|k: int| 0 <= k < s.len() && s[k].logical_id == id;
                assert(rest[k0].logical_id == id);
                let k1 = choose|k: int| 0 <= k < rest.len() && rest[k].logical_id == id;
                assert(s[k1] == rest[k1]);
                assert(k0 == k1);
            } else {
                assert forall|k: int| 0 <= k < rest.len() implies rest[k].logical_id != id by {
                    assert(rest[k] == s[k]);
                }
            }
        }
    }
}

/// Sorting cores with distinct logical ids gives one list whatever order
/// they were found in: two lists of the same cores, each with distinct ids,
/// sorted as `sort_cores` sorts them, come out the same.
pub proof fn law_sorting_ignores_discovery_order(
    a: Seq<CpuCore>,
    b: Seq<CpuCore>,
    sa: Seq<CpuCore>,
    sb: Seq<CpuCore>,
)
    requires
        distinct_logical_ids(a),
        distinct_logical_ids(b),
        forall|c: CpuCore| a.contains(c) <==> b.contains(c),
        sorted_by_logical_id(sa),
        forall|id: u32| cores_with_id(sa, id) == cores_with_id(a, id),
        sorted_by_logical_id(sb),
        forall|id: u32| cores_with_id(sb, id) == cores_with_id(b, id),
    ensures
        sa == sb,
{
    assert forall|id: u32| cores_with_id(sa, id) == cores_with_id(sb, id) by {
        lemma_group_of_distinct(a, id);
        lemma_group_of_distinct(b, id);
        assert(cores_with_id(sa, id) == cores_with_id(a, id));
        assert(cores_with_id(sb, id) == cores_with_id(b, id));
        if exists|k: int| 0 <= k < a.len() && a[k].logical_id == id {
            let ka = choose|k: int| 0 <= k < a.len() && a[k].logical_id == id;
            assert(a.contains(a[ka]));
            assert(b.contains(a[ka]));
            let kb0 = choose|k: int| 0 <= k < b.len() && b[k] == a[ka];
            assert(b[kb0].logical_id == id);
            let kb = choose|k: int| 0 <= k < b.len() && b[k].logical_id == id;
            assert(kb == kb0);
        } else {
            if exists|k: int| 0 <= k < b.len() && b[k].logical_id == id {
                let kb = choose|k: int| 0 <= k < b.len() && b[k].logical_id == id;
                assert(b.contains(b[kb]));
                assert(a.contains(b[kb]));
                let ka = choose|k: int| 0 <= k < a.len() && a[k] == b[kb];
                assert(a[ka].logical_id == id);
            }
        }
    }
    lemma_sorted_groups_unique(sa, sb);
}

/// The cores ordered by logical id, cores with equal ids in their order in
/// `cores` (a stable sort).
fn sort_by_logical_id(cores: &Vec<CpuCore>) -> (sorted: Vec<CpuCore>)
    ensures
        sorted_by_logical_id(sorted@),
        forall|id: u32| cores_with_id(sorted@, id) == cores_with_id(cores@, id),
{
    let mut sorted: Vec<CpuCore> = Vec::new();
    let mut i: usize = 0;
    while i < cores.len()
        invariant
            i <= cores.len(),
            sorted_by_logical_id(sorted@),
            forall|id: u32| cores_with_id(sorted@, id) == cores_with_id(cores@.take(i as int), id),
        decreases cores.len() - i,
    {
        let x = cores[i];
        let mut p = sorted.len();
        while p > 0 && sorted[p - 1].logical_id > x.logical_id
            invariant
                p <= sorted.len(),
                forall|k: int| p <= k < sorted.len() ==> (#[trigger] sorted@[k]).logical_id
                    > x.logical_id,
            decreases p,
        {
            p = p - 1;
        }
        let ghost before = sorted@;
        sorted.insert(p, x);
        proof {
            before.insert_ensures(p as int, x);
            assert(cores@.take(i + 1) =~= cores@.take(i as int).push(x));
            assert forall|id: u32|
                cores_with_id(sorted@, id) == cores_with_id(cores@.take(i + 1), id) by {
                lemma_insert_keeps_groups(before, p as int, x, id);
                assert(cores_with_id(before, id) == cores_with_id(cores@.take(i as int), id));
                assert(cores_with_id(before.push(x), id) == cores_with_id(
                    cores@.take(i as int).push(x),
                    id,
                )) by {
                    assert(before.push(x).drop_last() =~= before);
                    assert(cores@.take(i as int).push(x).drop_last() =~= cores@.take(i as int));
                }
            }
            assert forall|a: int, b: int| 0 <= a < b < sorted@.len() implies (
            #[trigger] sorted@[a]).logical_id <= (#[trigger] sorted@[b]).logical_id by {
                if p > 0 && a < p as int && b == p as int {
                    assert(before[p - 1].logical_id <= x.logical_id);
                    assert(before[a].logical_id <= before[p - 1].logical_id || a == p - 1);
                }
            }
        }
        i = i + 1;
    }
    assert(cores@.take(i as int) =~= cores@);
    sorted
}

// ---------------------------------------------------------------------------
// The topology
// ---------------------------------------------------------------------------

impl SystemTopology {
    /// A topology with no core, cache or node yet.
    pub fn new() -> (t: Self)
        ensures
            t.cores@.len() == 0,
            t.cache_blocks@.len() == 0,
            t.numa_nodes@.len() == 0,
            caches_distinct(t.cache_blocks@),
    {
        SystemTopology { cores: Vec::new(), cache_blocks: Vec::new(), numa_nodes: Vec::new() }
    }

    /// Adds the CPU `logical_id` whose `topology` directory holds the texts
    /// `package_text` (of `physical_package_id`) and `core_text` (of
    /// `core_id`); a file that cannot be read is passed as empty text, and
    /// an id that cannot be read counts 0.
    pub fn add_core(&mut self, logical_id: u32, package_text: &str, core_text: &str)
        ensures
            final(self).cores@ == old(self).cores@.push(
                CpuCore {
                    logical_id,
                    physical_id: id_in_text(core_text@),
                    package_id: id_in_text(package_text@),
                },
            ),
            final(self).cache_blocks@ == old(self).cache_blocks@,
            final(self).numa_nodes@ == old(self).numa_nodes@,
    {
        let package_id = parse_id_text(package_text);
        let physical_id = parse_id_text(core_text);
        self.cores.push(CpuCore { logical_id, physical_id, package_id });
    }

    /// Adds the cache that the texts of a cache index's `level`, `size`,
    /// `type` and shared-cpu list describe, unless its level reads as 0 or
    /// an entry for the same cache (same level, same shared CPUs) is there
    /// already. Returns whether it was added.
    pub fn add_cache(
        &mut self,
        level_text: &str,
        size_text: &str,
        type_text: &str,
        shared_text: &str,
    ) -> (added: bool)
        ensures
            added <==> (id_in_text(level_text@) != 0 && !(exists|i: int|
                0 <= i < old(self).cache_blocks@.len() && {
                    let c = #[trigger] old(self).cache_blocks@[i];
                    c.level == id_in_text(level_text@) && c.shared_cpus@ == trim(shared_text@)
                })),
            added ==> final(self).cache_blocks@.len() == old(self).cache_blocks@.len() + 1
                && final(self).cache_blocks@.drop_last() == old(self).cache_blocks@ && describes(
                final(self).cache_blocks@.last(),
                level_text@,
                size_text@,
                type_text@,
                shared_text@,
            ),
            !added ==> final(self).cache_blocks@ == old(self).cache_blocks@,
            caches_distinct(old(self).cache_blocks@) ==> caches_distinct(final(self).cache_blocks@),
            final(self).cores@ == old(self).cores@,
            final(self).numa_nodes@ == old(self).numa_nodes@,
    {
        let level = parse_id_text(level_text);
        if level == 0 {
            return false;
        }
        let shared_cpus = trimmed(shared_text);
        let mut i: usize = 0;
        while i < self.cache_blocks.len()
            invariant
                i <= self.cache_blocks.len(),
                level == id_in_text(level_text@),
                level != 0,
                shared_cpus@ == trim(shared_text@),
                self.cache_blocks@ == old(self).cache_blocks@,
                self.cores@ == old(self).cores@,
                self.numa_nodes@ == old(self).numa_nodes@,
                forall|k: int|
                    0 <= k < i ==> {
                        let c = #[trigger] self.cache_blocks@[k];
                        !(c.level == level && c.shared_cpus@ == shared_cpus@)
                    },
            decreases self.cache_blocks.len() - i,
        {
            let c = &self.cache_blocks[i];
            if c.level == level && c.shared_cpus == shared_cpus {
                assert(old(self).cache_blocks@[i as int] == *c);
                return false;
            }
            i = i + 1;
        }
        let block = CacheBlock {
            level,
            size: trimmed(size_text),
            cache_type: trimmed(type_text),
            shared_cpus,
        };
        let ghost before = self.cache_blocks@;
        self.cache_blocks.push(block);
        assert(self.cache_blocks@.drop_last() =~= before);
        assert forall|a: int, b: int|
            0 <= a < b < self.cache_blocks@.len() && caches_distinct(before) implies !same_cache(
            #[trigger] self.cache_blocks@[a],
            #[trigger] self.cache_blocks@[b],
        ) by {
            if b == before.len() {
                assert(self.cache_blocks@[a] == before[a]);
            } else {
                assert(self.cache_blocks@[a] == before[a]);
                assert(self.cache_blocks@[b] == before[b]);
            }
        }
        true
    }

    /// Adds the NUMA node `id` whose `meminfo` holds `meminfo`.
    pub fn add_numa_node(&mut self, id: u32, meminfo: &str)
        ensures
            final(self).numa_nodes@ == old(self).numa_nodes@.push(
                NumaNode {
                    id,
                    total_kb: meminfo_of(meminfo@).total_kb,
                    free_kb: available_kb(meminfo_of(meminfo@)),
                },
            ),
            final(self).cores@ == old(self).cores@,
            final(self).cache_blocks@ == old(self).cache_blocks@,
    {
        let node = NumaNode::from_meminfo(id, meminfo);
        self.numa_nodes.push(node);
    }

    /// Orders the cores by logical id, cores with equal ids kept in the
    /// order in which they were added.
    pub fn sort_cores(&mut self)
        ensures
            sorted_by_logical_id(final(self).cores@),
            forall|id: u32|
                cores_with_id(final(self).cores@, id) == cores_with_id(old(self).cores@, id),
            final(self).cache_blocks@ == old(self).cache_blocks@,
            final(self).numa_nodes@ == old(self).numa_nodes@,
    {
        let sorted = sort_by_logical_id(&self.cores);
        self.cores = sorted;
    }
}

} // verus!
