//! Per-core telemetry: the `/proc/stat` reader that needs no privileges, the
//! eBPF sample reader, and the choice between them.

use vstd::prelude::*;
use std::collections::HashMap;
use crate::text::{
    all_digits, chars_of, decimal_value, lemma_parse_u32_digits, contains_chars, contains_seq, is_white_space, lemma_skip_word, lines, lines_of,
    skip_white, skip_word, starts_with, starts_with_chars, sub_chars, texts, u32_or_zero,
    u32_or_zero_chars, u64_or_zero, u64_or_zero_chars, words, words_from, words_of,
};

verus! {

broadcast use vstd::std_specs::hash::group_hash_axioms;

/// How a core's recent activity is classified.
#[derive(Clone, Copy, Debug, PartialEq, Eq, Structural)]
pub enum WorkloadClassification {
    Idle,
    ComputeBound,
    MemoryBound,
    ContentionBound,
}

impl Default for WorkloadClassification {
    fn default() -> (c: Self)
        ensures
            c == WorkloadClassification::Idle,
    {
        WorkloadClassification::Idle
    }
}

/// A fraction `num / den` of two counter deltas, read as 0 when `den` is 0.
#[derive(Clone, Copy, Debug, PartialEq, Eq, Structural)]
pub struct Ratio {
    pub num: u64,
    pub den: u64,
}

/// What one collection round reports of one core.
#[derive(Clone, Copy, Debug, PartialEq, Eq, Structural)]
pub struct CoreMetrics {
    pub cpu_id: u32,
    /// Ticks spent executing over all ticks since the previous round; the
    /// execution percentage is `100 * num / den`.
    pub exec_share: Ratio,
    /// Share of time spent waiting; no collector measures it.
    pub wait_share: Option<Ratio>,
    /// Last-level cache misses counted on the core.
    pub llc_misses: Option<u64>,
    /// Instructions over cycles since the previous round.
    pub ipc: Option<Ratio>,
    /// The process running on the core, when one is.
    pub current_pid: Option<u32>,
    pub classification: WorkloadClassification,
}

impl Default for CoreMetrics {
    /// Metrics of core 0 with nothing measured: no time executed, idle.
    fn default() -> (m: Self)
        ensures
            m == (CoreMetrics {
                cpu_id: 0,
                exec_share: Ratio { num: 0, den: 0 },
                wait_share: None,
                llc_misses: None,
                ipc: None,
                current_pid: None,
                classification: WorkloadClassification::Idle,
            }),
    {
        CoreMetrics {
            cpu_id: 0,
            exec_share: Ratio { num: 0, den: 0 },
            wait_share: None,
            llc_misses: None,
            ipc: None,
            current_pid: None,
            classification: WorkloadClassification::Idle,
        }
    }
}

/// `a - b`, or 0 when `b > a`.
pub open spec fn sub_or_zero(a: u64, b: u64) -> u64 {
    if a >= b {
        (a - b) as u64
    } else {
        0
    }
}

// ---------------------------------------------------------------------------
// The /proc/stat collector
// ---------------------------------------------------------------------------

/// One line of `/proc/stat` read as a per-core sample `(cpu id, busy ticks,
/// all ticks)`: a line that starts with `cpu` and holds no `"cpu "` (which
/// leaves out the all-cores line), with at least nine fields; the id is the
/// first field after `cpu`, busy ticks are user + nice + system + irq +
/// softirq + steal, and all ticks add idle and iowait. A field that is no
/// number counts 0; the sums wrap at 2^64.
pub open spec fn stat_sample(line: Seq<char>) -> Option<(u32, u64, u64)> {
    if starts_with(line, seq!['c', 'p', 'u']) && !contains_seq(line, seq!['c', 'p', 'u', ' ']) {
        let f = words(line);
        if f.len() < 9 {
            None
        } else {
            let busy = u64_or_zero(f[1]).wrapping_add(u64_or_zero(f[2])).wrapping_add(
                u64_or_zero(f[3]),
            ).wrapping_add(u64_or_zero(f[6])).wrapping_add(u64_or_zero(f[7])).wrapping_add(
                u64_or_zero(f[8]),
            );
            let all = busy.wrapping_add(u64_or_zero(f[4])).wrapping_add(u64_or_zero(f[5]));
            Some((u32_or_zero(f[0].subrange(3, f[0].len() as int)), busy, all))
        }
    } else {
        None
    }
}

/// Whether a core whose busy and all ticks grew by `busy` and `all` runs
/// under 2% busy, the threshold below which it counts as idle.
pub open spec fn mostly_idle(busy: u64, all: u64) -> bool {
    all == 0 || 50 * busy < all
}

/// What the `/proc/stat` collector reports of a core whose busy and all
/// ticks grew by `busy` and `all`.
pub open spec fn stat_metrics(cpu_id: u32, busy: u64, all: u64) -> CoreMetrics {
    CoreMetrics {
        cpu_id,
        exec_share: Ratio { num: busy, den: all },
        wait_share: None,
        llc_misses: None,
        ipc: None,
        current_pid: None,
        classification: if mostly_idle(busy, all) {
            WorkloadClassification::Idle
        } else {
            WorkloadClassification::ComputeBound
        },
    }
}

/// The previous samples and the metrics so far after one more line: a core
/// with a previous sample gets metrics from the growth since it, and every
/// sampled core's sample replaces its previous one.
pub open spec fn stat_step(
    last: Map<u32, (u64, u64)>,
    out: Map<u32, CoreMetrics>,
    line: Seq<char>,
) -> (Map<u32, (u64, u64)>, Map<u32, CoreMetrics>) {
    match stat_sample(line) {
        None => (last, out),
        Some((id, busy, all)) => {
            let out2 = if last.contains_key(id) {
                out.insert(
                    id,
                    stat_metrics(id, sub_or_zero(busy, last[id].0), sub_or_zero(all, last[id].1)),
                )
            } else {
                out
            };
            (last.insert(id, (busy, all)), out2)
        },
    }
}

/// `stat_step` over the lines, first to last.
pub open spec fn stat_fold(
    last: Map<u32, (u64, u64)>,
    out: Map<u32, CoreMetrics>,
    ls: Seq<Seq<char>>,
) -> (Map<u32, (u64, u64)>, Map<u32, CoreMetrics>)
    decreases ls.len(),
{
    if ls.len() == 0 {
        (last, out)
    } else {
        let next = stat_step(last, out, ls[0]);
        stat_fold(next.0, next.1, ls.drop_first())
    }
}

/// The ids of the per-core samples among the lines, in order.
pub open spec fn sampled_ids(ls: Seq<Seq<char>>) -> Seq<u32>
    decreases ls.len(),
{
    if ls.len() == 0 {
        seq![]
    } else {
        match stat_sample(ls[0]) {
            Some(s) => seq![s.0] + sampled_ids(ls.drop_first()),
            None => sampled_ids(ls.drop_first()),
        }
    }
}

/// Each sampled core's ticks `(busy, all)` in the lines (the last sample of a
/// core that the lines sample more than once).
pub open spec fn samples_of(ls: Seq<Seq<char>>) -> Map<u32, (u64, u64)>
    decreases ls.len(),
{
    if ls.len() == 0 {
        Map::empty()
    } else {
        match stat_sample(ls[0]) {
            Some(s) => if sampled_ids(ls.drop_first()).contains(s.0) {
                samples_of(ls.drop_first())
            } else {
                samples_of(ls.drop_first()).insert(s.0, (s.1, s.2))
            },
            None => samples_of(ls.drop_first()),
        }
    }
}

/// The metrics of each core that has both a new sample in `now` and a
/// previous one in `last`: the growth between the two.
pub open spec fn growth(last: Map<u32, (u64, u64)>, now: Map<u32, (u64, u64)>) -> Map<
    u32,
    CoreMetrics,
> {
    Map::new(
        |id: u32| now.contains_key(id) && last.contains_key(id),
        |id: u32|
            stat_metrics(id, sub_or_zero(now[id].0, last[id].0), sub_or_zero(now[id].1, last[id].1)),
    )
}

proof fn lemma_samples_of_domain(ls: Seq<Seq<char>>, id: u32)
    ensures
        samples_of(ls).contains_key(id) <==> sampled_ids(ls).contains(id),
    decreases ls.len(),
{
    if ls.len() > 0 {
        lemma_samples_of_domain(ls.drop_first(), id);
        match stat_sample(ls[0]) {
            Some(s) => {
                let rest = sampled_ids(ls.drop_first());
                assert((seq![s.0] + rest)[0] == s.0);
                if rest.contains(id) {
                    let k = choose|k: int| 0 <= k < rest.len() && rest[k] == id;
                    assert((seq![s.0] + rest)[k + 1] == id);
                }
                if (seq![s.0] + rest).contains(id) && id != s.0 {
                    let k = choose|k: int|
                        0 <= k < (seq![s.0] + rest).len() && (seq![s.0] + rest)[k] == id;
                    assert(rest[k - 1] == id);
                }
            },
            None => {},
        }
    }
}

/// What one round does, when no core is sampled twice in it: the previous
/// samples are overwritten by the round's samples, and the round reports
/// the growth since the previous sample of each core that had one.
proof fn lemma_stat_fold(last: Map<u32, (u64, u64)>, out: Map<u32, CoreMetrics>, ls: Seq<Seq<char>>)
    requires
        sampled_ids(ls).no_duplicates(),
    ensures
        stat_fold(last, out, ls).0 == last.union_prefer_right(samples_of(ls)),
        stat_fold(last, out, ls).1 == out.union_prefer_right(growth(last, samples_of(ls))),
    decreases ls.len(),
{
    if ls.len() == 0 {
        assert(last.union_prefer_right(samples_of(ls)) =~= last);
        assert(out.union_prefer_right(growth(last, samples_of(ls))) =~= out);
    } else {
        let rest = ls.drop_first();
        match stat_sample(ls[0]) {
            None => {
                lemma_stat_fold(last, out, rest);
            },
            Some(smp) => {
                let (id, b, a) = smp;
                let ids = sampled_ids(ls);
                assert(ids == seq![id] + sampled_ids(rest));
                assert forall|i: int, j: int|
                    0 <= i < j < sampled_ids(rest).len() implies sampled_ids(rest)[i]
                    != sampled_ids(rest)[j] by {
                    assert(ids[i + 1] == sampled_ids(rest)[i]);
                    assert(ids[j + 1] == sampled_ids(rest)[j]);
                }
                assert(!sampled_ids(rest).contains(id)) by {
                    if sampled_ids(rest).contains(id) {
                        let k = choose|k: int|
                            0 <= k < sampled_ids(rest).len() && sampled_ids(rest)[k] == id;
                        assert(ids[k + 1] == id);
                        assert(ids[0] == id);
                    }
                }
                lemma_samples_of_domain(rest, id);
                let last2 = last.insert(id, (b, a));
                let out2 = if last.contains_key(id) {
                    out.insert(
                        id,
                        stat_metrics(id, sub_or_zero(b, last[id].0), sub_or_zero(a, last[id].1)),
                    )
                } else {
                    out
                };
                assert(stat_step(last, out, ls[0]) == (last2, out2));
                lemma_stat_fold(last2, out2, rest);
                let sr = samples_of(rest);
                let s_all = samples_of(ls);
                assert(s_all == sr.insert(id, (b, a)));
                assert(last2.union_prefer_right(sr) =~= last.union_prefer_right(s_all));
                assert(growth(last2, sr) =~= growth(last, sr));
                assert(out2.union_prefer_right(growth(last, sr)) =~= out.union_prefer_right(
                    growth(last, s_all),
                ));
            },
        }
    }
}

/// When no core is sampled twice in a text, a collector that has seen no
/// sample reports nothing in its first round over it.
pub proof fn law_first_round_reports_nothing(ls: Seq<Seq<char>>)
    requires
        sampled_ids(ls).no_duplicates(),
    ensures
        stat_fold(Map::empty(), Map::empty(), ls).1 == Map::<u32, CoreMetrics>::empty(),
{
    lemma_stat_fold(Map::empty(), Map::empty(), ls);
    assert(Map::<u32, CoreMetrics>::empty().union_prefer_right(
        growth(Map::empty(), samples_of(ls)),
    ) =~= Map::<u32, CoreMetrics>::empty());
}

/// When no core is sampled twice in a text, a round over the same text
/// again reports each sampled core with no growth, idle, and no other core.
pub proof fn law_same_text_again_is_idle(
    last: Map<u32, (u64, u64)>,
    out: Map<u32, CoreMetrics>,
    ls: Seq<Seq<char>>,
)
    requires
        sampled_ids(ls).no_duplicates(),
    ensures
        stat_fold(stat_fold(last, out, ls).0, Map::empty(), ls).1 == Map::new(
            |id: u32| sampled_ids(ls).contains(id),
            |id: u32| stat_metrics(id, 0, 0),
        ),
        forall|id: u32|
            #[trigger] stat_fold(stat_fold(last, out, ls).0, Map::empty(), ls).1.contains_key(id)
                ==> stat_fold(stat_fold(last, out, ls).0, Map::empty(), ls).1[id].classification
                == WorkloadClassification::Idle,
{
    lemma_stat_fold(last, out, ls);
    let s1 = stat_fold(last, out, ls).0;
    lemma_stat_fold(s1, Map::empty(), ls);
    assert forall|id: u32| samples_of(ls).contains_key(id) <==> sampled_ids(ls).contains(id) by {
        lemma_samples_of_domain(ls, id);
    }
    assert(Map::<u32, CoreMetrics>::empty().union_prefer_right(growth(s1, samples_of(ls)))
        =~= Map::new(
        |id: u32| sampled_ids(ls).contains(id),
        |id: u32| stat_metrics(id, 0, 0),
    ));
}

/// The first word of a line that starts with `cpu` starts with `cpu` too.
proof fn lemma_first_word_of_cpu_line(line: Seq<char>)
    requires
        starts_with(line, seq!['c', 'p', 'u']),
    ensures
        words(line).len() >= 1,
        words(line)[0].len() >= 3,
        words(line)[0] == line.subrange(0, skip_word(line, 0)),
{
    assert(line.subrange(0, 3)[0] == 'c');
    assert(line.subrange(0, 3)[1] == 'p');
    assert(line.subrange(0, 3)[2] == 'u');
    assert(!is_white_space(line[0]));
    assert(!is_white_space(line[1]));
    assert(!is_white_space(line[2]));
    assert(skip_white(line, 0) == 0);
    lemma_skip_word(line, 3);
    assert(skip_word(line, 2) == skip_word(line, 3));
    assert(skip_word(line, 1) == skip_word(line, 2));
    assert(skip_word(line, 0) == skip_word(line, 1));
    assert(words_from(line, 0) == seq![line.subrange(0, skip_word(line, 0))] + words_from(
        line,
        skip_word(line, 0),
    ));
}

/// 2^64: `u64` tick sums wrap around at this modulus.
pub open spec fn tick_modulus() -> int {
    0x1_0000_0000_0000_0000
}

/// Whether `line` has the shape of a per-core `/proc/stat` line: it starts
/// with `cpu` directly followed by the core's number, and has at least nine
/// words (`cpuN user nice system idle iowait irq softirq steal`).
pub open spec fn per_core_line(line: Seq<char>) -> bool {
    &&& starts_with(line, seq!['c', 'p', 'u'])
    &&& !contains_seq(line, seq!['c', 'p', 'u', ' '])
    &&& words(line).len() >= 9
}

/// The tick count that field `k` of a `/proc/stat` line holds, as read:
/// 0 where it is not a number.
pub open spec fn tick_field(line: Seq<char>, k: int) -> int {
    u64_or_zero(words(line)[k]) as int
}

/// Adding to a sum modulo 2^64 with `wrapping_add` keeps it the sum modulo
/// 2^64.
pub proof fn lemma_wrapping_add_mod(x: u64, y: u64, a: int)
    requires
        x as int == a % tick_modulus(),
    ensures
        x.wrapping_add(y) as int == (a + y) % tick_modulus(),
{
    let m = tick_modulus();
    if x + y > u64::MAX {
        vstd::arithmetic::div_mod::lemma_small_mod((x + y - m) as nat, m as nat);
        vstd::arithmetic::div_mod::lemma_mod_add_multiples_vanish(x + y - m, m);
        assert(x.wrapping_add(y) as int == (x + y) % m);
    } else {
        vstd::arithmetic::div_mod::lemma_small_mod((x + y) as nat, m as nat);
    }
    vstd::arithmetic::div_mod::lemma_add_mod_noop_right(y as int, a, m);
}

/// Every per-core line is sampled, and its core is the number that the
/// whole text after `cpu` in its first word writes, whatever its number of
/// digits.
pub proof fn law_sampled_core_is_the_number_after_cpu(line: Seq<char>, digits: Seq<char>)
    requires
        per_core_line(line),
        words(line)[0] == seq!['c', 'p', 'u'] + digits,
        digits.len() > 0,
        all_digits(digits),
        decimal_value(digits) <= u32::MAX,
    ensures
        stat_sample(line) is Some,
        stat_sample(line).unwrap().0 as int == decimal_value(digits),
{
    let w = words(line)[0];
    assert(w.subrange(3, w.len() as int) =~= digits);
    lemma_parse_u32_digits(digits);
}

/// Of a per-core line `cpuN user nice system idle iowait irq softirq steal`,
/// the busy ticks are user + nice + system + irq + softirq + steal, and all
/// ticks are those and idle and iowait, both modulo 2^64.
pub proof fn law_stat_ticks(line: Seq<char>)
    requires
        per_core_line(line),
    ensures
        stat_sample(line) is Some,
        stat_sample(line).unwrap().1 as int == (tick_field(line, 1) + tick_field(line, 2)
            + tick_field(line, 3) + tick_field(line, 6) + tick_field(line, 7) + tick_field(line, 8))
            % tick_modulus(),
        stat_sample(line).unwrap().2 as int == (tick_field(line, 1) + tick_field(line, 2)
            + tick_field(line, 3) + tick_field(line, 4) + tick_field(line, 5) + tick_field(line, 6)
            + tick_field(line, 7) + tick_field(line, 8)) % tick_modulus(),
{
    let f = words(line);
    let m = tick_modulus();
    let v1 = u64_or_zero(f[1]);
    vstd::arithmetic::div_mod::lemma_small_mod(v1 as nat, m as nat);
    let s2 = v1.wrapping_add(u64_or_zero(f[2]));
    lemma_wrapping_add_mod(v1, u64_or_zero(f[2]), v1 as int);
    let s3 = s2.wrapping_add(u64_or_zero(f[3]));
    lemma_wrapping_add_mod(s2, u64_or_zero(f[3]), tick_field(line, 1) + tick_field(line, 2));
    let s6 = s3.wrapping_add(u64_or_zero(f[6]));
    lemma_wrapping_add_mod(
        s3,
        u64_or_zero(f[6]),
        tick_field(line, 1) + tick_field(line, 2) + tick_field(line, 3),
    );
    let s7 = s6.wrapping_add(u64_or_zero(f[7]));
    lemma_wrapping_add_mod(
        s6,
        u64_or_zero(f[7]),
        tick_field(line, 1) + tick_field(line, 2) + tick_field(line, 3) + tick_field(line, 6),
    );
    let busy = s7.wrapping_add(u64_or_zero(f[8]));
    let b = tick_field(line, 1) + tick_field(line, 2) + tick_field(line, 3) + tick_field(line, 6)
        + tick_field(line, 7) + tick_field(line, 8);
    lemma_wrapping_add_mod(s7, u64_or_zero(f[8]), b - tick_field(line, 8));
    let s4 = busy.wrapping_add(u64_or_zero(f[4]));
    lemma_wrapping_add_mod(busy, u64_or_zero(f[4]), b);
    lemma_wrapping_add_mod(s4, u64_or_zero(f[5]), b + tick_field(line, 4));
}

/// Idle and iowait ticks count toward all ticks only: two per-core lines
/// that differ in nothing but their idle and iowait fields give the same
/// core and the same busy ticks, and all ticks that differ by just the
/// difference in those fields (modulo 2^64).
pub proof fn law_idle_and_iowait_are_not_busy(l1: Seq<char>, l2: Seq<char>)
    requires
        per_core_line(l1),
        per_core_line(l2),
        forall|k: int| 0 <= k < 9 && k != 4 && k != 5 ==> words(l1)[k] == words(l2)[k],
    ensures
        stat_sample(l1) is Some,
        stat_sample(l2) is Some,
        stat_sample(l1).unwrap().0 == stat_sample(l2).unwrap().0,
        stat_sample(l1).unwrap().1 == stat_sample(l2).unwrap().1,
        (stat_sample(l1).unwrap().2 + tick_field(l2, 4) + tick_field(l2, 5)) % tick_modulus() == (
        stat_sample(l2).unwrap().2 + tick_field(l1, 4) + tick_field(l1, 5)) % tick_modulus(),
{
    law_stat_ticks(l1);
    law_stat_ticks(l2);
    let m = tick_modulus();
    assert(words(l1)[0] == words(l2)[0]);
    assert(tick_field(l1, 1) == tick_field(l2, 1));
    assert(tick_field(l1, 2) == tick_field(l2, 2));
    assert(tick_field(l1, 3) == tick_field(l2, 3));
    assert(tick_field(l1, 6) == tick_field(l2, 6));
    assert(tick_field(l1, 7) == tick_field(l2, 7));
    assert(tick_field(l1, 8) == tick_field(l2, 8));
    let b = tick_field(l1, 1) + tick_field(l1, 2) + tick_field(l1, 3) + tick_field(l1, 6)
        + tick_field(l1, 7) + tick_field(l1, 8);
    let g1 = tick_field(l1, 4) + tick_field(l1, 5);
    let g2 = tick_field(l2, 4) + tick_field(l2, 5);
    vstd::arithmetic::div_mod::lemma_add_mod_noop_right(g2, b + g1, m);
    vstd::arithmetic::div_mod::lemma_add_mod_noop_right(g1, b + g2, m);
    assert(b + tick_field(l1, 4) + tick_field(l1, 5) == b + g1);
    assert(b + tick_field(l2, 4) + tick_field(l2, 5) == b + g2);
}

/// Whether `line` is sampled as core `id`.
pub open spec fn samples_core(line: Seq<char>, id: u32) -> bool {
    stat_sample(line) is Some && stat_sample(line).unwrap().0 == id
}

/// A round leaves what it holds of a core that none of its lines samples as
/// it was.
proof fn lemma_stat_fold_untouched(
    last: Map<u32, (u64, u64)>,
    out: Map<u32, CoreMetrics>,
    ls: Seq<Seq<char>>,
    id: u32,
)
    requires
        forall|i: int| 0 <= i < ls.len() ==> !samples_core(#[trigger] ls[i], id),
    ensures
        stat_fold(last, out, ls).0.contains_key(id) == last.contains_key(id),
        stat_fold(last, out, ls).0[id] == last[id],
        stat_fold(last, out, ls).1.contains_key(id) == out.contains_key(id),
        stat_fold(last, out, ls).1[id] == out[id],
    decreases ls.len(),
{
    if ls.len() > 0 {
        let next = stat_step(last, out, ls[0]);
        assert(!samples_core(ls[0], id));
        let rest = ls.drop_first();
        assert forall|i: int| 0 <= i < rest.len() implies !samples_core(#[trigger] rest[i], id) by {
            assert(rest[i] == ls[i + 1]);
        }
        lemma_stat_fold_untouched(next.0, next.1, rest, id);
    }
}

/// After a `/proc/stat` round, the sample kept for a core is its last
/// sample in the round: its busy and all ticks there.
pub proof fn law_stat_round_keeps_latest_sample(
    last: Map<u32, (u64, u64)>,
    out: Map<u32, CoreMetrics>,
    ls: Seq<Seq<char>>,
    i: int,
)
    requires
        0 <= i < ls.len(),
        stat_sample(ls[i]) is Some,
        forall|j: int|
            i < j < ls.len() ==> !samples_core(#[trigger] ls[j], stat_sample(ls[i]).unwrap().0),
    ensures
        stat_fold(last, out, ls).0.contains_key(stat_sample(ls[i]).unwrap().0),
        stat_fold(last, out, ls).0[stat_sample(ls[i]).unwrap().0] == (
            stat_sample(ls[i]).unwrap().1,
            stat_sample(ls[i]).unwrap().2,
        ),
    decreases ls.len(),
{
    let next = stat_step(last, out, ls[0]);
    let rest = ls.drop_first();
    let id = stat_sample(ls[i]).unwrap().0;
    if i == 0 {
        assert forall|j: int| 0 <= j < rest.len() implies !samples_core(#[trigger] rest[j], id) by {
            assert(rest[j] == ls[j + 1]);
        }
        lemma_stat_fold_untouched(next.0, next.1, rest, id);
    } else {
        assert(rest[i - 1] == ls[i]);
        assert forall|j: int| i - 1 < j < rest.len() implies !samples_core(
            #[trigger] rest[j],
            id,
        ) by {
            assert(rest[j] == ls[j + 1]);
        }
        law_stat_round_keeps_latest_sample(next.0, next.1, rest, i - 1);
    }
}

/// A core that one line of a round samples, and no other, is reported with
/// the growth of its busy and all ticks since its previous sample (none
/// below 0) when it has one, and is not reported when it has none.
pub proof fn law_stat_round_reports_growth(
    last: Map<u32, (u64, u64)>,
    ls: Seq<Seq<char>>,
    i: int,
)
    requires
        0 <= i < ls.len(),
        stat_sample(ls[i]) is Some,
        forall|j: int|
            0 <= j < ls.len() && j != i ==> !samples_core(
                #[trigger] ls[j],
                stat_sample(ls[i]).unwrap().0,
            ),
    ensures
        ({
            let (id, busy, all) = stat_sample(ls[i]).unwrap();
            let r = stat_fold(last, Map::empty(), ls).1;
            &&& r.contains_key(id) == last.contains_key(id)
            &&& last.contains_key(id) ==> r[id] == stat_metrics(
                id,
                (if busy >= last[id].0 {
                    busy - last[id].0
                } else {
                    0
                }) as u64,
                (if all >= last[id].1 {
                    all - last[id].1
                } else {
                    0
                }) as u64,
            )
        }),
{
    lemma_stat_round_reports(last, Map::empty(), ls, i);
}

proof fn lemma_stat_round_reports(
    last: Map<u32, (u64, u64)>,
    out: Map<u32, CoreMetrics>,
    ls: Seq<Seq<char>>,
    i: int,
)
    requires
        0 <= i < ls.len(),
        stat_sample(ls[i]) is Some,
        !out.contains_key(stat_sample(ls[i]).unwrap().0),
        forall|j: int|
            0 <= j < ls.len() && j != i ==> !samples_core(
                #[trigger] ls[j],
                stat_sample(ls[i]).unwrap().0,
            ),
    ensures
        ({
            let (id, busy, all) = stat_sample(ls[i]).unwrap();
            let r = stat_fold(last, out, ls).1;
            &&& r.contains_key(id) == last.contains_key(id)
            &&& last.contains_key(id) ==> r[id] == stat_metrics(
                id,
                sub_or_zero(busy, last[id].0),
                sub_or_zero(all, last[id].1),
            )
        }),
    decreases ls.len(),
{
    let next = stat_step(last, out, ls[0]);
    let rest = ls.drop_first();
    let id = stat_sample(ls[i]).unwrap().0;
    if i == 0 {
        assert forall|j: int| 0 <= j < rest.len() implies !samples_core(#[trigger] rest[j], id) by {
            assert(rest[j] == ls[j + 1]);
            assert(j + 1 != 0);
        }
        lemma_stat_fold_untouched(next.0, next.1, rest, id);
    } else {
        assert(rest[i - 1] == ls[i]);
        assert(!samples_core(ls[0], id));
        assert forall|j: int| 0 <= j < rest.len() && j != i - 1 implies !samples_core(
            #[trigger] rest[j],
            id,
        ) by {
            assert(rest[j] == ls[j + 1]);
        }
        lemma_stat_round_reports(next.0, next.1, rest, i - 1);
    }
}

/// A core is reported busy for its share of ticks, `busy / all`, and as
/// compute bound exactly when some ticks passed and at least 2% of them
/// were busy; otherwise it is idle.
pub proof fn law_stat_share_and_class(cpu_id: u32, busy: u64, all: u64)
    ensures
        stat_metrics(cpu_id, busy, all).exec_share == (Ratio { num: busy, den: all }),
        stat_metrics(cpu_id, busy, all).classification == WorkloadClassification::ComputeBound
            <==> (all > 0 && 100 * busy >= 2 * all),
        stat_metrics(cpu_id, busy, all).classification == WorkloadClassification::Idle
            <==> !(all > 0 && 100 * busy >= 2 * all),
{
}

/// The per-core sample that one `/proc/stat` line holds.
fn stat_line_sample(line: &Vec<char>) -> (r: Option<(u32, u64, u64)>)
    ensures
        r == stat_sample(line@),
{
    let cpu = vec!['c', 'p', 'u'];
    let cpu_space = vec!['c', 'p', 'u', ' '];
    if !starts_with_chars(line, &cpu) || contains_chars(line, &cpu_space) {
        return None;
    }
    let f = words_of(line);
    proof {
        lemma_first_word_of_cpu_line(line@);
    }
    if f.len() < 9 {
        return None;
    }
    let ghost fv = texts(f@);
    assert(forall|k: int| 0 <= k < f.len() ==> fv[k] == #[trigger] f@[k]@);
    let id_text = sub_chars(&f[0], 3, f[0].len());
    let id = u32_or_zero_chars(&id_text);
    let user = u64_or_zero_chars(&f[1]);
    let nice = u64_or_zero_chars(&f[2]);
    let system = u64_or_zero_chars(&f[3]);
    let idle = u64_or_zero_chars(&f[4]);
    let iowait = u64_or_zero_chars(&f[5]);
    let irq = u64_or_zero_chars(&f[6]);
    let softirq = u64_or_zero_chars(&f[7]);
    let steal = u64_or_zero_chars(&f[8]);
    let busy = user.wrapping_add(nice).wrapping_add(system).wrapping_add(irq).wrapping_add(
        softirq,
    ).wrapping_add(steal);
    let all = busy.wrapping_add(idle).wrapping_add(iowait);
    Some((id, busy, all))
}

/// The `/proc/stat` metrics of a core whose ticks grew by `busy` and `all`.
fn stat_core_metrics(cpu_id: u32, busy: u64, all: u64) -> (m: CoreMetrics)
    ensures
        m == stat_metrics(cpu_id, busy, all),
{
    let idle = all == 0 || (busy as u128) * 50 < all as u128;
    CoreMetrics {
        cpu_id,
        exec_share: Ratio { num: busy, den: all },
        wait_share: None,
        llc_misses: None,
        ipc: None,
        current_pid: None,
        classification: if idle {
            WorkloadClassification::Idle
        } else {
            WorkloadClassification::ComputeBound
        },
    }
}

/// Reads per-core load from the text of `/proc/stat`, which needs no
/// privileges; keeps each core's previous sample between rounds.
pub struct SysfsCollector {
    last_cpu_times: HashMap<u32, (u64, u64)>,
}

impl View for SysfsCollector {
    type V = Map<u32, (u64, u64)>;

    /// Each core's previous sample: its busy and all ticks.
    closed spec fn view(&self) -> Map<u32, (u64, u64)> {
        self.last_cpu_times@
    }
}

impl SysfsCollector {
    /// A collector that has seen no sample yet.
    pub fn new() -> (c: Self)
        ensures
            c@ == Map::<u32, (u64, u64)>::empty(),
    {
        SysfsCollector { last_cpu_times: HashMap::new() }
    }

    /// One collection round over `content`, the text of `/proc/stat`:
    /// metrics for each core that had a previous sample, keyed by cpu id, and
    /// each sampled core's sample kept for the next round.
    pub fn update_metrics(&mut self, content: &str) -> (results: HashMap<u32, CoreMetrics>)
        ensures
            (final(self)@, results@) == stat_fold(
                old(self)@,
                Map::<u32, CoreMetrics>::empty(),
                lines(content@),
            ),
    {
        let chars = chars_of(content);
        let ls = lines_of(&chars);
        let ghost all_lines = texts(ls@);
        let mut results: HashMap<u32, CoreMetrics> = HashMap::new();
        let mut k: usize = 0;
        assert(all_lines.skip(0) =~= all_lines);
        while k < ls.len()
            invariant
                k <= ls.len(),
                all_lines == texts(ls@),
                all_lines == lines(content@),
                stat_fold(old(self)@, Map::<u32, CoreMetrics>::empty(), all_lines) == stat_fold(
                    self@,
                    results@,
                    all_lines.skip(k as int),
                ),
            decreases ls.len() - k,
        {
            let ghost rest = all_lines.skip(k as int);
            assert(rest[0] == ls@[k as int]@);
            assert(rest.drop_first() =~= all_lines.skip(k + 1));
            match stat_line_sample(&ls[k]) {
                None => {},
                Some((id, busy, all)) => {
                    match self.last_cpu_times.get(&id) {
                        Some(prev) => {
                            let m = stat_core_metrics(
                                id,
                                busy.saturating_sub(prev.0),
                                all.saturating_sub(prev.1),
                            );
                            results.insert(id, m);
                        },
                        None => {},
                    }
                    self.last_cpu_times.insert(id, (busy, all));
                },
            }
            k = k + 1;
        }
        assert(all_lines.skip(k as int) =~= Seq::<Seq<char>>::empty());
        results
    }
}

// ---------------------------------------------------------------------------
// The eBPF collector
// ---------------------------------------------------------------------------

/// The number that the bytes `b` write least significant byte first.
pub open spec fn little_endian_value(b: Seq<u8>) -> int
    decreases b.len(),
{
    if b.len() == 0 {
        0
    } else {
        b[0] + 256 * little_endian_value(b.drop_first())
    }
}

/// The number that the bytes `b` write most significant byte first.
pub open spec fn big_endian_value(b: Seq<u8>) -> int
    decreases b.len(),
{
    if b.len() == 0 {
        0
    } else {
        big_endian_value(b.drop_last()) * 256 + b.last()
    }
}

/// Whether `v` is what the bytes `b` write in one of the two byte orders that
/// a machine can have.
pub open spec fn native_read(b: Seq<u8>, v: int) -> bool {
    v == little_endian_value(b) || v == big_endian_value(b)
}

/// `u64::from_ne_bytes`.
#[verifier::external_body]
fn u64_from_native_bytes(b: [u8; 8]) -> (v: u64)
    ensures
        native_read(b@, v as int),
{
    u64::from_ne_bytes(b)
}

/// `u32::from_ne_bytes`.
#[verifier::external_body]
fn u32_from_native_bytes(b: [u8; 4]) -> (v: u32)
    ensures
        native_read(b@, v as int),
{
    u32::from_ne_bytes(b)
}

/// The counters that the eBPF program keeps for one core.
#[derive(Clone, Copy, Debug, PartialEq, Eq, Structural)]
pub struct CpuCounters {
    pub cpu_id: u32,
    pub instructions: u64,
    pub cycles: u64,
    pub llc_misses: u64,
    pub pid: u32,
}

/// Whether `c` is what the raw per-core record `raw` of core `cpu_id` holds:
/// instructions, cycles and cache misses in its first three 8-byte words and
/// the running pid in the 4 bytes after them, each in the machine's byte order.
pub open spec fn reads_counters(cpu_id: u32, raw: Seq<u8>, c: CpuCounters) -> bool {
    &&& c.cpu_id == cpu_id
    &&& native_read(raw.subrange(0, 8), c.instructions as int)
    &&& native_read(raw.subrange(8, 16), c.cycles as int)
    &&& native_read(raw.subrange(16, 24), c.llc_misses as int)
    &&& native_read(raw.subrange(24, 28), c.pid as int)
}

/// A map lookup of core `cpu_id` as plain values: the id and the value that
/// each CPU holds for it.
pub open spec fn lookup_view(s: (u32, Vec<Vec<u8>>)) -> (u32, Seq<Seq<u8>>) {
    (s.0, s.1@.map_values(|v: Vec<u8>| v@))
}

/// Whether a lookup holds a record for its core: the value at the core's own
/// index, of at least 32 bytes.
pub open spec fn has_record(s: (u32, Seq<Seq<u8>>)) -> bool {
    s.0 < s.1.len() && s.1[s.0 as int].len() >= 32
}

/// Whether `cs` are the counters that the lookups hold, lookup after lookup;
/// a lookup without a record gives none.
pub open spec fn decodes(lookups: Seq<(u32, Seq<Seq<u8>>)>, cs: Seq<CpuCounters>) -> bool
    decreases lookups.len(),
{
    if lookups.len() == 0 {
        cs.len() == 0
    } else {
        let s = lookups.last();
        if has_record(s) {
            &&& cs.len() > 0
            &&& reads_counters(s.0, s.1[s.0 as int], cs.last())
            &&& decodes(lookups.drop_last(), cs.drop_last())
        } else {
            decodes(lookups.drop_last(), cs)
        }
    }
}

/// The ratio of instructions to cycles and the classification of a core from
/// its counters and its previous counters, if any: with more than 1000 cycles
/// since them, more than one instruction per cycle is compute bound, under
/// 0.4 with more than 100000 cycles memory bound, anything else compute
/// bound; otherwise the core is idle and the ratio 0.
pub open spec fn ipc_and_class(c: CpuCounters, prev: Option<(u64, u64, u64)>) -> (
    Ratio,
    WorkloadClassification,
) {
    match prev {
        Some(p) => {
            let d_inst = sub_or_zero(c.instructions, p.0);
            let d_cycle = sub_or_zero(c.cycles, p.1);
            if d_cycle > 1000 {
                (
                    Ratio { num: d_inst, den: d_cycle },
                    if d_inst > d_cycle {
                        WorkloadClassification::ComputeBound
                    } else if 5 * d_inst < 2 * d_cycle && d_cycle > 100000 {
                        WorkloadClassification::MemoryBound
                    } else {
                        WorkloadClassification::ComputeBound
                    },
                )
            } else {
                (Ratio { num: 0, den: 0 }, WorkloadClassification::Idle)
            }
        },
        None => (Ratio { num: 0, den: 0 }, WorkloadClassification::Idle),
    }
}

/// What the eBPF collector reports of a core from its counters and its
/// previous counters, if any.
pub open spec fn ebpf_metrics(c: CpuCounters, prev: Option<(u64, u64, u64)>) -> CoreMetrics {
    let (ipc, class) = ipc_and_class(c, prev);
    CoreMetrics {
        cpu_id: c.cpu_id,
        exec_share: Ratio { num: 0, den: 0 },
        wait_share: None,
        llc_misses: Some(c.llc_misses),
        ipc: Some(ipc),
        current_pid: if c.pid > 0 {
            Some(c.pid)
        } else {
            None
        },
        classification: class,
    }
}

/// The previous counters and the metrics so far after one more core's
/// counters: the core gets metrics, and its counters replace its previous ones.
pub open spec fn ebpf_step(
    last: Map<u32, (u64, u64, u64)>,
    out: Map<u32, CoreMetrics>,
    c: CpuCounters,
) -> (Map<u32, (u64, u64, u64)>, Map<u32, CoreMetrics>) {
    let prev = if last.contains_key(c.cpu_id) {
        Some(last[c.cpu_id])
    } else {
        None
    };
    (
        last.insert(c.cpu_id, (c.instructions, c.cycles, c.llc_misses)),
        out.insert(c.cpu_id, ebpf_metrics(c, prev)),
    )
}

/// `ebpf_step` over the counters, first to last.
pub open spec fn ebpf_fold(
    last: Map<u32, (u64, u64, u64)>,
    out: Map<u32, CoreMetrics>,
    cs: Seq<CpuCounters>,
) -> (Map<u32, (u64, u64, u64)>, Map<u32, CoreMetrics>)
    decreases cs.len(),
{
    if cs.len() == 0 {
        (last, out)
    } else {
        let next = ebpf_step(last, out, cs[0]);
        ebpf_fold(next.0, next.1, cs.drop_first())
    }
}

/// The `/proc/stat` collector tells only idle and compute-bound cores apart.
pub proof fn law_stat_classes(cpu_id: u32, busy: u64, all: u64)
    ensures
        stat_metrics(cpu_id, busy, all).classification == WorkloadClassification::Idle
            || stat_metrics(cpu_id, busy, all).classification
            == WorkloadClassification::ComputeBound,
        stat_metrics(cpu_id, busy, all).cpu_id == cpu_id,
{
}

/// The eBPF collector never reports a core as contention bound, and reports
/// a core it sees for the first time as idle with an IPC of 0.
pub proof fn law_ebpf_classes(c: CpuCounters, prev: Option<(u64, u64, u64)>)
    ensures
        ebpf_metrics(c, prev).classification != WorkloadClassification::ContentionBound,
        prev is None ==> ebpf_metrics(c, prev).classification == WorkloadClassification::Idle
            && ebpf_metrics(c, prev).ipc == Some(Ratio { num: 0, den: 0 }),
{
}

/// Counters that have not moved since the previous round read as idle, with
/// an IPC of 0.
pub proof fn law_unmoved_counters_are_idle(c: CpuCounters)
    ensures
        ebpf_metrics(c, Some((c.instructions, c.cycles, c.llc_misses))).classification
            == WorkloadClassification::Idle,
        ebpf_metrics(c, Some((c.instructions, c.cycles, c.llc_misses))).ipc == Some(
            Ratio { num: 0, den: 0 },
        ),
{
}

/// A round of the eBPF collector reports every core whose counters it is
/// given, and keeps those counters for the next round.
pub proof fn law_ebpf_round_covers_cores(
    last: Map<u32, (u64, u64, u64)>,
    out: Map<u32, CoreMetrics>,
    cs: Seq<CpuCounters>,
)
    ensures
        forall|i: int|
            0 <= i < cs.len() ==> #[trigger] ebpf_fold(last, out, cs).1.contains_key(cs[i].cpu_id)
                && ebpf_fold(last, out, cs).0.contains_key(cs[i].cpu_id),
    decreases cs.len(),
{
    if cs.len() > 0 {
        let next = ebpf_step(last, out, cs[0]);
        law_ebpf_round_covers_cores(next.0, next.1, cs.drop_first());
        lemma_ebpf_fold_keeps(next.0, next.1, cs.drop_first(), cs[0].cpu_id);
        assert forall|i: int| 0 <= i < cs.len() implies #[trigger] ebpf_fold(
            last,
            out,
            cs,
        ).1.contains_key(cs[i].cpu_id) && ebpf_fold(last, out, cs).0.contains_key(
            cs[i].cpu_id,
        ) by {
            assert(ebpf_fold(last, out, cs) == ebpf_fold(next.0, next.1, cs.drop_first()));
            if i > 0 {
                assert(cs[i] == cs.drop_first()[i - 1]);
                assert(ebpf_fold(next.0, next.1, cs.drop_first()).1.contains_key(
                    cs.drop_first()[i - 1].cpu_id,
                ));
            }
        }
    }
}

/// A round never forgets a core: what was there stays there.
proof fn lemma_ebpf_fold_keeps(
    last: Map<u32, (u64, u64, u64)>,
    out: Map<u32, CoreMetrics>,
    cs: Seq<CpuCounters>,
    id: u32,
)
    ensures
        last.contains_key(id) ==> ebpf_fold(last, out, cs).0.contains_key(id),
        out.contains_key(id) ==> ebpf_fold(last, out, cs).1.contains_key(id),
    decreases cs.len(),
{
    if cs.len() > 0 {
        let next = ebpf_step(last, out, cs[0]);
        lemma_ebpf_fold_keeps(next.0, next.1, cs.drop_first(), id);
    }
}

/// How the eBPF collector reads a core's growth since its previous counters
/// `p`: over at most 1000 cycles (or counters that went back) the core is
/// idle with an IPC of 0; over more, its IPC is instructions over cycles,
/// above 1 compute bound, under 0.4 over more than 100000 cycles memory
/// bound, and compute bound otherwise. Its cache misses and running pid (none
/// for pid 0) are reported as read.
pub proof fn law_ebpf_growth(c: CpuCounters, p: (u64, u64, u64))
    ensures
        ({
            let m = ebpf_metrics(c, Some(p));
            let di: int = if c.instructions >= p.0 {
                c.instructions - p.0
            } else {
                0
            };
            let dc: int = if c.cycles >= p.1 {
                c.cycles - p.1
            } else {
                0
            };
            &&& m.cpu_id == c.cpu_id
            &&& m.llc_misses == Some(c.llc_misses)
            &&& (c.pid == 0 ==> m.current_pid is None)
            &&& (c.pid != 0 ==> m.current_pid == Some(c.pid))
            &&& (dc <= 1000 ==> m.classification == WorkloadClassification::Idle && m.ipc == Some(
                Ratio { num: 0, den: 0 },
            ))
            &&& (dc > 1000 ==> m.ipc is Some && m.ipc.unwrap().num == di && m.ipc.unwrap().den
                == dc)
            &&& (dc > 1000 && di > dc ==> m.classification == WorkloadClassification::ComputeBound)
            &&& (dc > 100000 && 10 * di < 4 * dc ==> m.classification
                == WorkloadClassification::MemoryBound)
            &&& (dc > 1000 && 10 * di >= 4 * dc ==> m.classification
                == WorkloadClassification::ComputeBound)
            &&& (1000 < dc <= 100000 ==> m.classification == WorkloadClassification::ComputeBound)
        }),
{
}

/// The previous counters that `last` holds for core `id`, if any.
pub open spec fn previous_counters(last: Map<u32, (u64, u64, u64)>, id: u32) -> Option<
    (u64, u64, u64),
> {
    if last.contains_key(id) {
        Some(last[id])
    } else {
        None
    }
}

/// Whether no two counters of `cs` are of the same core.
pub open spec fn distinct_cores(cs: Seq<CpuCounters>) -> bool {
    forall|i: int, j: int| 0 <= i < j < cs.len() ==> cs[i].cpu_id != cs[j].cpu_id
}

/// A round leaves what it holds of a core that it is given no counters of
/// as it was.
proof fn lemma_ebpf_fold_untouched(
    last: Map<u32, (u64, u64, u64)>,
    out: Map<u32, CoreMetrics>,
    cs: Seq<CpuCounters>,
    id: u32,
)
    requires
        forall|i: int| 0 <= i < cs.len() ==> cs[i].cpu_id != id,
    ensures
        previous_counters(ebpf_fold(last, out, cs).0, id) == previous_counters(last, id),
        ebpf_fold(last, out, cs).1.contains_key(id) == out.contains_key(id),
        ebpf_fold(last, out, cs).1[id] == out[id],
    decreases cs.len(),
{
    if cs.len() > 0 {
        let next = ebpf_step(last, out, cs[0]);
        assert(cs[0].cpu_id != id);
        assert forall|i: int| 0 <= i < cs.drop_first().len() implies cs.drop_first()[i].cpu_id
            != id by {
            assert(cs.drop_first()[i] == cs[i + 1]);
        }
        lemma_ebpf_fold_untouched(next.0, next.1, cs.drop_first(), id);
    }
}

/// After a round, the previous counters kept for a core are the counters it
/// was given last in that round, whatever was kept before.
pub proof fn law_round_keeps_latest_counters(
    last: Map<u32, (u64, u64, u64)>,
    out: Map<u32, CoreMetrics>,
    cs: Seq<CpuCounters>,
    i: int,
)
    requires
        0 <= i < cs.len(),
        forall|j: int| i < j < cs.len() ==> cs[j].cpu_id != cs[i].cpu_id,
    ensures
        ebpf_fold(last, out, cs).0.contains_key(cs[i].cpu_id),
        ebpf_fold(last, out, cs).0[cs[i].cpu_id] == (
            cs[i].instructions,
            cs[i].cycles,
            cs[i].llc_misses,
        ),
    decreases cs.len(),
{
    let next = ebpf_step(last, out, cs[0]);
    if i == 0 {
        assert forall|j: int| 0 <= j < cs.drop_first().len() implies cs.drop_first()[j].cpu_id
            != cs[0].cpu_id by {
            assert(cs.drop_first()[j] == cs[j + 1]);
        }
        lemma_ebpf_fold_untouched(next.0, next.1, cs.drop_first(), cs[0].cpu_id);
    } else {
        let rest = cs.drop_first();
        assert(rest[i - 1] == cs[i]);
        assert forall|j: int| i - 1 < j < rest.len() implies (#[trigger] rest[j]).cpu_id
            != rest[i - 1].cpu_id by {
            assert(rest[j] == cs[j + 1]);
        }
        law_round_keeps_latest_counters(next.0, next.1, cs.drop_first(), i - 1);
    }
}

/// A round of counters of distinct cores reports each core from its counters
/// and the counters kept for it before the round.
proof fn lemma_ebpf_fold_reports(
    last: Map<u32, (u64, u64, u64)>,
    out: Map<u32, CoreMetrics>,
    cs: Seq<CpuCounters>,
    i: int,
)
    requires
        distinct_cores(cs),
        0 <= i < cs.len(),
    ensures
        ebpf_fold(last, out, cs).1.contains_key(cs[i].cpu_id),
        ebpf_fold(last, out, cs).1[cs[i].cpu_id] == ebpf_metrics(
            cs[i],
            previous_counters(last, cs[i].cpu_id),
        ),
    decreases cs.len(),
{
    let next = ebpf_step(last, out, cs[0]);
    let rest = cs.drop_first();
    assert forall|a: int, b: int| 0 <= a < b < rest.len() implies rest[a].cpu_id
        != rest[b].cpu_id by {
        assert(rest[a] == cs[a + 1]);
        assert(rest[b] == cs[b + 1]);
    }
    if i == 0 {
        assert forall|j: int| 0 <= j < rest.len() implies rest[j].cpu_id != cs[0].cpu_id by {
            assert(rest[j] == cs[j + 1]);
        }
        lemma_ebpf_fold_untouched(next.0, next.1, rest, cs[0].cpu_id);
    } else {
        assert(rest[i - 1] == cs[i]);
        assert(cs[0].cpu_id != cs[i].cpu_id);
        assert(previous_counters(next.0, cs[i].cpu_id) == previous_counters(last, cs[i].cpu_id));
        lemma_ebpf_fold_reports(next.0, next.1, rest, i - 1);
    }
}

/// Repeating a round's counters, one per core, in the next round reports
/// every one of those cores idle with an IPC of 0, and keeps the same
/// counters: nothing moved since the round before.
pub proof fn law_repeated_round_is_idle(
    last: Map<u32, (u64, u64, u64)>,
    out: Map<u32, CoreMetrics>,
    cs: Seq<CpuCounters>,
    i: int,
)
    requires
        distinct_cores(cs),
        0 <= i < cs.len(),
    ensures
        ebpf_fold(ebpf_fold(last, out, cs).0, Map::empty(), cs).1[cs[i].cpu_id].classification
            == WorkloadClassification::Idle,
        ebpf_fold(ebpf_fold(last, out, cs).0, Map::empty(), cs).1[cs[i].cpu_id].ipc == Some(
            Ratio { num: 0, den: 0 },
        ),
        ebpf_fold(ebpf_fold(last, out, cs).0, Map::empty(), cs).0 == ebpf_fold(last, out, cs).0,
{
    let first = ebpf_fold(last, out, cs).0;
    law_round_keeps_latest_counters(last, out, cs, i);
    lemma_ebpf_fold_reports(first, Map::empty(), cs, i);
    law_unmoved_counters_are_idle(cs[i]);
    let second = ebpf_fold(first, Map::empty(), cs).0;
    assert forall|id: u32| #[trigger] second.contains_key(id) == first.contains_key(id) && (
    second.contains_key(id) ==> second[id] == first[id]) by {
        if exists|j: int| 0 <= j < cs.len() && cs[j].cpu_id == id {
            let j = choose|j: int| 0 <= j < cs.len() && cs[j].cpu_id == id;
            law_round_keeps_latest_counters(last, out, cs, j);
            law_round_keeps_latest_counters(first, Map::empty(), cs, j);
        } else {
            lemma_ebpf_fold_untouched(first, Map::empty(), cs, id);
        }
    }
    assert(second =~= first);
}

fn ebpf_core_metrics(c: CpuCounters, prev: Option<(u64, u64, u64)>) -> (m: CoreMetrics)
    ensures
        m == ebpf_metrics(c, prev),
{
    let mut ipc = Ratio { num: 0, den: 0 };
    let mut class = WorkloadClassification::Idle;
    if let Some(p) = prev {
        let d_inst = c.instructions.saturating_sub(p.0);
        let d_cycle = c.cycles.saturating_sub(p.1);
        if d_cycle > 1000 {
            ipc = Ratio { num: d_inst, den: d_cycle };
            class = if d_inst > d_cycle {
                WorkloadClassification::ComputeBound
            } else if (d_inst as u128) * 5 < (d_cycle as u128) * 2 && d_cycle > 100000 {
                WorkloadClassification::MemoryBound
            } else {
                WorkloadClassification::ComputeBound
            };
        }
    }
    CoreMetrics {
        cpu_id: c.cpu_id,
        exec_share: Ratio { num: 0, den: 0 },
        wait_share: None,
        llc_misses: Some(c.llc_misses),
        ipc: Some(ipc),
        current_pid: if c.pid > 0 {
            Some(c.pid)
        } else {
            None
        },
        classification: class,
    }
}

/// The counters in one raw per-core record of at least 32 bytes.
fn decode_record(cpu_id: u32, raw: &Vec<u8>) -> (c: CpuCounters)
    requires
        raw.len() >= 32,
    ensures
        reads_counters(cpu_id, raw@, c),
{
    let instructions = u64_from_native_bytes(
        [raw[0], raw[1], raw[2], raw[3], raw[4], raw[5], raw[6], raw[7]],
    );
    let cycles = u64_from_native_bytes(
        [raw[8], raw[9], raw[10], raw[11], raw[12], raw[13], raw[14], raw[15]],
    );
    let llc_misses = u64_from_native_bytes(
        [raw[16], raw[17], raw[18], raw[19], raw[20], raw[21], raw[22], raw[23]],
    );
    let pid = u32_from_native_bytes([raw[24], raw[25], raw[26], raw[27]]);
    proof {
        assert([raw[0], raw[1], raw[2], raw[3], raw[4], raw[5], raw[6], raw[7]]@ =~= raw@.subrange(0, 8));
        assert([raw[8], raw[9], raw[10], raw[11], raw[12], raw[13], raw[14], raw[15]]@ =~= raw@.subrange(8, 16));
        assert([raw[16], raw[17], raw[18], raw[19], raw[20], raw[21], raw[22], raw[23]]@ =~= raw@.subrange(16, 24));
        assert([raw[24], raw[25], raw[26], raw[27]]@ =~= raw@.subrange(24, 28));
    }
    CpuCounters { cpu_id, instructions, cycles, llc_misses, pid }
}

/// Reads per-core counters that an eBPF program gathers; keeps each core's
/// previous counters between rounds.
pub struct EbpfCollector {
    last_raw: HashMap<u32, (u64, u64, u64)>,
}

impl View for EbpfCollector {
    type V = Map<u32, (u64, u64, u64)>;

    /// Each core's previous instructions, cycles and cache misses.
    closed spec fn view(&self) -> Map<u32, (u64, u64, u64)> {
        self.last_raw@
    }
}

impl EbpfCollector {
    /// A collector that has seen no counters yet.
    pub fn new() -> (c: Self)
        ensures
            c@ == Map::<u32, (u64, u64, u64)>::empty(),
    {
        EbpfCollector { last_raw: HashMap::new() }
    }

    /// One collection round over decoded counters: metrics for each core,
    /// keyed by cpu id, and each core's counters kept for the next round.
    pub fn apply_counters(&mut self, counters: &Vec<CpuCounters>) -> (results: HashMap<
        u32,
        CoreMetrics,
    >)
        ensures
            (final(self)@, results@) == ebpf_fold(
                old(self)@,
                Map::<u32, CoreMetrics>::empty(),
                counters@,
            ),
    {
        let mut results: HashMap<u32, CoreMetrics> = HashMap::new();
        let mut k: usize = 0;
        assert(counters@.skip(0) =~= counters@);
        while k < counters.len()
            invariant
                k <= counters.len(),
                ebpf_fold(old(self)@, Map::<u32, CoreMetrics>::empty(), counters@) == ebpf_fold(
                    self@,
                    results@,
                    counters@.skip(k as int),
                ),
            decreases counters.len() - k,
        {
            let c = counters[k];
            assert(counters@.skip(k as int)[0] == c);
            assert(counters@.skip(k as int).drop_first() =~= counters@.skip(k + 1));
            let prev = match self.last_raw.get(&c.cpu_id) {
                Some(p) => Some(*p),
                None => None,
            };
            let m = ebpf_core_metrics(c, prev);
            self.last_raw.insert(c.cpu_id, (c.instructions, c.cycles, c.llc_misses));
            results.insert(c.cpu_id, m);
            k = k + 1;
        }
        assert(counters@.skip(k as int) =~= Seq::<CpuCounters>::empty());
        results
    }

    /// One collection round over the eBPF map's lookups, one per core: each
    /// `(cpu_id, values)` holds the value that each CPU keeps for the core.
    /// The record at the core's own index, when it has 32 bytes or more, is
    /// decoded and applied as `apply_counters` does.
    pub fn update_metrics(&mut self, lookups: &Vec<(u32, Vec<Vec<u8>>)>) -> (results: HashMap<
        u32,
        CoreMetrics,
    >)
        ensures
            exists|cs: Seq<CpuCounters>|
                {
                    &&& decodes(lookups@.map_values(|s: (u32, Vec<Vec<u8>>)| lookup_view(s)), cs)
                    &&& (final(self)@, results@) == ebpf_fold(
                        old(self)@,
                        Map::<u32, CoreMetrics>::empty(),
                        cs,
                    )
                },
    {
        let ghost views = lookups@.map_values(|s: (u32, Vec<Vec<u8>>)| lookup_view(s));
        let mut counters: Vec<CpuCounters> = Vec::new();
        let mut k: usize = 0;
        assert(views.take(0) =~= Seq::<(u32, Seq<Seq<u8>>)>::empty());
        while k < lookups.len()
            invariant
                k <= lookups.len(),
                views == lookups@.map_values(|s: (u32, Vec<Vec<u8>>)| lookup_view(s)),
                decodes(views.take(k as int), counters@),
            decreases lookups.len() - k,
        {
            let cpu_id = lookups[k].0;
            let values = &lookups[k].1;
            let ghost v = views[k as int];
            assert(views.take(k + 1).drop_last() =~= views.take(k as int));
            assert(views.take(k + 1).last() == v);
            assert(v.1.len() == values.len());
            if (cpu_id as usize) < values.len() && values[cpu_id as usize].len() >= 32 {
                assert(v.1[cpu_id as int] == values@[cpu_id as int]@);
                let c = decode_record(cpu_id, &values[cpu_id as usize]);
                let ghost before = counters@;
                counters.push(c);
                assert(counters@.drop_last() =~= before);
            } else {
                assert(!has_record(v));
            }
            k = k + 1;
        }
        assert(views.take(k as int) =~= views);
        self.apply_counters(&counters)
    }
}

// ---------------------------------------------------------------------------
// Choosing a collector
// ---------------------------------------------------------------------------

/// The two collectors.
#[derive(Clone, Copy, Debug, PartialEq, Eq, Structural)]
pub enum CollectorKind {
    Ebpf,
    Sysfs,
}

/// `Path::exists` of `path`.
#[verifier::external_body]
fn path_exists(path: &str) -> bool {
    std::path::Path::new(path).exists()
}

/// Where the kernel publishes its BTF type information.
pub fn btf_vmlinux_path() -> (p: &'static str)
    ensures
        p@ == "/sys/kernel/btf/vmlinux"@,
{
    "/sys/kernel/btf/vmlinux"
}

/// Whether the kernel publishes its BTF type information, which the eBPF
/// program needs: whether the file at `btf_vmlinux_path()` exists. That
/// depends on the machine's disk, so nothing is promised of the answer.
pub fn has_btf_support() -> bool {
    path_exists(btf_vmlinux_path())
}

/// The collector to try first: the eBPF one when the sysfs one is not forced,
/// the process runs as root and the kernel has BTF; the sysfs one otherwise.
pub fn select_collector(force_sysfs: bool, is_root: bool, has_btf: bool) -> (k: CollectorKind)
    ensures
        k == (if !force_sysfs && is_root && has_btf {
            CollectorKind::Ebpf
        } else {
            CollectorKind::Sysfs
        }),
{
    if !force_sysfs && is_root && has_btf {
        CollectorKind::Ebpf
    } else {
        CollectorKind::Sysfs
    }
}

/// The collector in use once the chosen one has been started: the sysfs one
/// stands in when the eBPF one could not be started.
pub fn collector_in_use(chosen: CollectorKind, ebpf_started: bool) -> (k: CollectorKind)
    ensures
        k == (if chosen == CollectorKind::Ebpf && ebpf_started {
            CollectorKind::Ebpf
        } else {
            CollectorKind::Sysfs
        }),
{
    match chosen {
        CollectorKind::Ebpf => if ebpf_started {
            CollectorKind::Ebpf
        } else {
            CollectorKind::Sysfs
        },
        CollectorKind::Sysfs => CollectorKind::Sysfs,
    }
}

} // verus!
