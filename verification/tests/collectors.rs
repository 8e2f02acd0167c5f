use std::collections::HashMap;
use swift_topomap::collector::{
    btf_vmlinux_path, collector_in_use, has_btf_support, select_collector, CollectorKind, CoreMetrics, CpuCounters,
    EbpfCollector, Ratio, SysfsCollector, WorkloadClassification,
};

const STAT_1: &str = "cpu  100 0 100 800 0 0 0 0 0 0\n\
cpu0 10 0 10 80 0 0 0 0 0 0\n\
cpu1 50 0 50 400 0 0 0 0 0 0\n\
intr 12345\n\
ctxt 999\n";

const STAT_2: &str = "cpu  200 0 200 1600 0 0 0 0 0 0\n\
cpu0 11 0 10 179 0 0 0 0 0 0\n\
cpu1 100 0 100 400 0 0 0 0 0 0\n\
intr 12346\n";

#[test]
fn workload_default_is_idle() {
    assert_eq!(WorkloadClassification::default(), WorkloadClassification::Idle);
}

#[test]
fn sysfs_first_round_reports_nothing() {
    let mut c = SysfsCollector::new();
    let m = c.update_metrics(STAT_1);
    assert!(m.is_empty());
}

#[test]
fn sysfs_second_round_reports_growth() {
    let mut c = SysfsCollector::new();
    c.update_metrics(STAT_1);
    let m = c.update_metrics(STAT_2);
    assert_eq!(m.len(), 2);
    let cpu0 = m[&0];
    // busy grew by 1 (user), all by 1 + 99 idle
    assert_eq!(cpu0.exec_share, Ratio { num: 1, den: 100 });
    assert_eq!(cpu0.classification, WorkloadClassification::Idle);
    assert_eq!(cpu0.ipc, None);
    assert_eq!(cpu0.current_pid, None);
    assert_eq!(cpu0.llc_misses, None);
    let cpu1 = m[&1];
    assert_eq!(cpu1.exec_share, Ratio { num: 100, den: 100 });
    assert_eq!(cpu1.classification, WorkloadClassification::ComputeBound);
}

#[test]
fn sysfs_two_percent_is_the_idle_threshold() {
    let mut c = SysfsCollector::new();
    c.update_metrics("cpu3 0 0 0 0 0 0 0 0 0\n");
    let m = c.update_metrics("cpu3 2 0 0 98 0 0 0 0 0\n");
    assert_eq!(m[&3].classification, WorkloadClassification::ComputeBound);
    let m = c.update_metrics("cpu3 3 0 0 197 0 0 0 0 0\n");
    assert_eq!(m[&3].exec_share, Ratio { num: 1, den: 100 });
    assert_eq!(m[&3].classification, WorkloadClassification::Idle);
}

#[test]
fn sysfs_same_text_again_is_idle() {
    let mut c = SysfsCollector::new();
    c.update_metrics(STAT_1);
    let m = c.update_metrics(STAT_1);
    assert_eq!(m.len(), 2);
    for (id, metrics) in &m {
        assert_eq!(metrics.cpu_id, *id);
        assert_eq!(metrics.exec_share, Ratio { num: 0, den: 0 });
        assert_eq!(metrics.classification, WorkloadClassification::Idle);
    }
}

#[test]
fn sysfs_skips_short_and_aggregate_lines() {
    let mut c = SysfsCollector::new();
    c.update_metrics("cpu 1 2 3 4 5 6 7 8 9\ncpu7 1 2 3\ncpu8 0 0 0 0 0 0 0 0\n");
    let m = c.update_metrics("cpu 9 9 9 9 9 9 9 9 9\ncpu7 9 9 9\ncpu8 5 0 0 0 0 0 0 0\n");
    assert_eq!(m.len(), 1);
    assert_eq!(m[&8].exec_share, Ratio { num: 5, den: 5 });
}

#[test]
fn sysfs_bad_numbers_count_zero() {
    let mut c = SysfsCollector::new();
    c.update_metrics("cpuX 1 1 1 1 1 1 1 1\n");
    let m = c.update_metrics("cpuX 2 x 1 1 1 1 1 1\r\n");
    // "cpuX" reads as cpu 0; the bad field counts 0
    assert_eq!(m[&0].exec_share, Ratio { num: 0, den: 0 });
}

#[test]
fn sysfs_counter_going_back_reads_zero() {
    let mut c = SysfsCollector::new();
    c.update_metrics("cpu2 10 0 0 10 0 0 0 0 0\n");
    let m = c.update_metrics("cpu2 5 0 0 5 0 0 0 0 0\n");
    assert_eq!(m[&2].exec_share, Ratio { num: 0, den: 0 });
}

fn counters(cpu_id: u32, instructions: u64, cycles: u64, llc_misses: u64, pid: u32) -> CpuCounters {
    CpuCounters { cpu_id, instructions, cycles, llc_misses, pid }
}

#[test]
fn ebpf_first_counters_are_idle() {
    let mut c = EbpfCollector::new();
    let m = c.apply_counters(&vec![counters(0, 100, 100, 7, 0), counters(1, 5, 5, 0, 42)]);
    assert_eq!(m.len(), 2);
    assert_eq!(m[&0].classification, WorkloadClassification::Idle);
    assert_eq!(m[&0].ipc, Some(Ratio { num: 0, den: 0 }));
    assert_eq!(m[&0].llc_misses, Some(7));
    assert_eq!(m[&0].current_pid, None);
    assert_eq!(m[&1].current_pid, Some(42));
    assert_eq!(m[&1].exec_share, Ratio { num: 0, den: 0 });
}

#[test]
fn ebpf_classifies_by_instructions_per_cycle() {
    let mut c = EbpfCollector::new();
    c.apply_counters(&vec![
        counters(0, 0, 0, 0, 1),
        counters(1, 0, 0, 0, 1),
        counters(2, 0, 0, 0, 1),
        counters(3, 0, 0, 0, 1),
        counters(4, 0, 0, 0, 1),
    ]);
    let m = c.apply_counters(&vec![
        counters(0, 3000, 2000, 0, 1),      // ipc 1.5
        counters(1, 30000, 200000, 0, 1),   // ipc 0.15, many cycles
        counters(2, 300, 2000, 0, 1),       // ipc 0.15, few cycles
        counters(3, 1000, 1000, 0, 1),      // only 1000 cycles
        counters(4, 80000, 200000, 0, 1),   // ipc exactly 0.4
    ]);
    assert_eq!(m[&0].classification, WorkloadClassification::ComputeBound);
    assert_eq!(m[&0].ipc, Some(Ratio { num: 3000, den: 2000 }));
    assert_eq!(m[&1].classification, WorkloadClassification::MemoryBound);
    assert_eq!(m[&2].classification, WorkloadClassification::ComputeBound);
    assert_eq!(m[&3].classification, WorkloadClassification::Idle);
    assert_eq!(m[&3].ipc, Some(Ratio { num: 0, den: 0 }));
    assert_eq!(m[&4].classification, WorkloadClassification::ComputeBound);
}

#[test]
fn ebpf_unmoved_counters_are_idle() {
    let mut c = EbpfCollector::new();
    c.apply_counters(&vec![counters(9, 5000, 9000, 3, 1)]);
    let m = c.apply_counters(&vec![counters(9, 5000, 9000, 3, 1)]);
    assert_eq!(m[&9].classification, WorkloadClassification::Idle);
}

fn record(instructions: u64, cycles: u64, misses: u64, pid: u32) -> Vec<u8> {
    let mut r = Vec::new();
    r.extend_from_slice(&instructions.to_ne_bytes());
    r.extend_from_slice(&cycles.to_ne_bytes());
    r.extend_from_slice(&misses.to_ne_bytes());
    r.extend_from_slice(&pid.to_ne_bytes());
    r.extend_from_slice(&[0, 0, 0, 0]);
    r
}

#[test]
fn ebpf_map_records_are_decoded() {
    let mut c = EbpfCollector::new();
    // core 1's record sits at index 1 of its per-CPU values
    let lookups = vec![
        (0u32, vec![record(10, 20, 30, 77)]),
        (1u32, vec![record(0, 0, 0, 0), record(1, 2, 3, 4)]),
        (2u32, vec![record(1, 1, 1, 1)]), // no value at index 2
        (3u32, vec![vec![0; 8], vec![0; 8], vec![0; 8], vec![0; 31]]), // too short
    ];
    let m = c.update_metrics(&lookups);
    assert_eq!(m.len(), 2);
    assert_eq!(m[&0].llc_misses, Some(30));
    assert_eq!(m[&0].current_pid, Some(77));
    assert_eq!(m[&1].llc_misses, Some(3));
    assert_eq!(m[&1].current_pid, Some(4));
    let m2 = c.update_metrics(&vec![(0u32, vec![record(5010, 2020, 31, 77)])]);
    assert_eq!(m2[&0].ipc, Some(Ratio { num: 5000, den: 2000 }));
    assert_eq!(m2[&0].classification, WorkloadClassification::ComputeBound);
}

#[test]
fn collector_choice() {
    assert_eq!(select_collector(false, true, true), CollectorKind::Ebpf);
    assert_eq!(select_collector(true, true, true), CollectorKind::Sysfs);
    assert_eq!(select_collector(false, false, true), CollectorKind::Sysfs);
    assert_eq!(select_collector(false, true, false), CollectorKind::Sysfs);
    assert_eq!(collector_in_use(CollectorKind::Ebpf, false), CollectorKind::Sysfs);
    assert_eq!(collector_in_use(CollectorKind::Ebpf, true), CollectorKind::Ebpf);
    assert_eq!(collector_in_use(CollectorKind::Sysfs, true), CollectorKind::Sysfs);
}

#[test]
fn btf_check_matches_the_file() {
    assert_eq!(btf_vmlinux_path(), "/sys/kernel/btf/vmlinux");
    assert_eq!(has_btf_support(), std::path::Path::new("/sys/kernel/btf/vmlinux").exists());
}

#[test]
fn metrics_can_be_held_in_a_map() {
    let mut h: HashMap<u32, CoreMetrics> = HashMap::new();
    let mut c = EbpfCollector::new();
    h.extend(c.apply_counters(&vec![counters(3, 1, 1, 1, 1)]));
    assert!(h.contains_key(&3));
}

#[test]
fn default_metrics_are_idle_and_empty() {
    let m = CoreMetrics::default();
    assert_eq!(m.cpu_id, 0);
    assert_eq!(m.exec_share, Ratio { num: 0, den: 0 });
    assert_eq!(m.classification, WorkloadClassification::Idle);
    assert_eq!(m.ipc, None);
    assert_eq!(m.current_pid, None);
}
