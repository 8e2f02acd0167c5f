use std::collections::HashMap;
use swift_topomap::collector::{CoreMetrics, Ratio, WorkloadClassification};
use swift_topomap::topology::{
    cpu_dir_id, node_dir_id, parse_id_text, parse_meminfo, CacheBlock, CpuCore, NumaNode,
    SystemTopology,
};
use swift_topomap::ui::app::{App, KeyPress};
use swift_topomap::ui::layout::{
    cache_size_label, package_caches, centered_margin, core_label, core_rgb, cores_in_cache,
    grid_cell, grid_rows, metrics_for, numa_node_for, package_cores, package_ids, share_percent,
    CoreLabel,
};

const MEMINFO: &str = "Node 0 MemTotal:       16318412 kB\n\
Node 0 MemFree:         1000 kB\n\
Node 0 MemUsed:        15000 kB\n\
Node 0 Active:           500 kB\n\
Node 0 Inactive:         200 kB\n\
Node 0 Inactive(anon):    70 kB\n\
Node 0 KReclaimable:       0 kB\n\
Node 0 SReclaimable:      50 kB\n";

fn mk_core(logical_id: u32, physical_id: u32, package_id: u32) -> CpuCore {
    CpuCore { logical_id, physical_id, package_id }
}

#[test]
fn sysfs_entry_names() {
    assert_eq!(cpu_dir_id("cpu12"), Some(12));
    assert_eq!(cpu_dir_id("cpu0"), Some(0));
    assert_eq!(cpu_dir_id("cpufreq"), None);
    assert_eq!(cpu_dir_id("cpuidle"), None);
    assert_eq!(cpu_dir_id("cpu"), Some(0));
    assert_eq!(cpu_dir_id("node1"), None);
    assert_eq!(node_dir_id("node3"), Some(3));
    assert_eq!(node_dir_id("has_cpu"), None);
    // numeric but not a number that parses: the id reads as 0
    assert_eq!(cpu_dir_id("cpu\u{b2}"), Some(0));
}

#[test]
fn id_files() {
    assert_eq!(parse_id_text("3\n"), 3);
    assert_eq!(parse_id_text("  17 "), 17);
    assert_eq!(parse_id_text(""), 0);
    assert_eq!(parse_id_text("x"), 0);
}

#[test]
fn meminfo_counts_available_memory() {
    let m = parse_meminfo(MEMINFO);
    assert_eq!(m.total_kb, 16318412);
    assert_eq!(m.free_kb, 1000);
    assert_eq!(m.inactive_kb, 200);
    assert_eq!(m.sreclaimable_kb, 50);
    let n = NumaNode::from_meminfo(0, MEMINFO);
    assert_eq!(n, NumaNode { id: 0, total_kb: 16318412, free_kb: 1250 });
    assert_eq!(n.used_kb(), 16318412 - 1250);
}

#[test]
fn meminfo_prefers_kernel_reclaimable() {
    let n = NumaNode::from_meminfo(1, "Node 1 MemFree: 10 kB\nNode 1 KReclaimable: 5 kB\nNode 1 SReclaimable: 99 kB\n");
    assert_eq!(n.free_kb, 15);
    assert_eq!(n.total_kb, 0);
    let empty = NumaNode::from_meminfo(2, "");
    assert_eq!(empty, NumaNode { id: 2, total_kb: 0, free_kb: 0 });
    assert_eq!(NumaNode { id: 0, total_kb: 5, free_kb: 9 }.used_kb(), 0);
}

#[test]
fn topology_keeps_one_entry_per_cache() {
    let mut t = SystemTopology::new();
    assert!(t.add_cache("1\n", "32K\n", "Data\n", "0\n"));
    assert!(t.add_cache("1", "32K", "Instruction", "1"));
    assert!(!t.add_cache("1", "32K", "Data", " 0 "));
    assert!(t.add_cache("3", "8192K", "Unified", "0-3"));
    assert!(!t.add_cache("3", "8192K", "Unified", "0-3"));
    assert!(!t.add_cache("0", "1K", "Data", "9"));
    assert!(!t.add_cache("", "1K", "Data", "9"));
    assert_eq!(t.cache_blocks.len(), 3);
    assert_eq!(t.cache_blocks[0].size, "32K");
    assert_eq!(t.cache_blocks[0].cache_type, "Data");
    assert_eq!(t.cache_blocks[2].shared_cpus, "0-3");
    assert_eq!(t.cache_blocks[2].level, 3);
}

#[test]
fn topology_cores_and_nodes() {
    let mut t = SystemTopology::new();
    t.add_core(2, "0\n", "1\n");
    t.add_core(0, "0\n", "0\n");
    t.add_core(1, "1", "");
    t.add_numa_node(0, MEMINFO);
    t.sort_cores();
    assert_eq!(t.cores, vec![mk_core(0, 0, 0), mk_core(1, 0, 1), mk_core(2, 1, 0)]);
    assert_eq!(t.numa_nodes.len(), 1);
    assert_eq!(t.numa_nodes[0].free_kb, 1250);
}

#[test]
fn sorting_is_stable() {
    let mut t = SystemTopology::new();
    t.add_core(5, "1", "7");
    t.add_core(3, "0", "0");
    t.add_core(5, "2", "8");
    t.sort_cores();
    assert_eq!(t.cores, vec![mk_core(3, 0, 0), mk_core(5, 7, 1), mk_core(5, 8, 2)]);
}

#[test]
fn sockets_and_their_cores() {
    let cores = vec![mk_core(0, 0, 1), mk_core(1, 0, 0), mk_core(2, 1, 1), mk_core(3, 1, 0)];
    assert_eq!(package_ids(&cores), vec![0, 1]);
    assert_eq!(package_ids(&vec![]), Vec::<u32>::new());
    assert_eq!(package_cores(&cores, 1), vec![mk_core(0, 0, 1), mk_core(2, 1, 1)]);
    assert_eq!(cores_in_cache(&cores, "0,2-3"), vec![mk_core(0, 0, 1), mk_core(2, 1, 1), mk_core(3, 1, 0)]);
    let nodes = vec![
        NumaNode { id: 1, total_kb: 10, free_kb: 1 },
        NumaNode { id: 0, total_kb: 20, free_kb: 2 },
        NumaNode { id: 1, total_kb: 30, free_kb: 3 },
    ];
    assert_eq!(numa_node_for(&nodes, 1), Some(NumaNode { id: 1, total_kb: 10, free_kb: 1 }));
    assert_eq!(numa_node_for(&nodes, 4), None);
}

fn block(level: u32, size: &str, shared: &str) -> CacheBlock {
    CacheBlock {
        level,
        size: size.to_string(),
        cache_type: "Unified".to_string(),
        shared_cpus: shared.to_string(),
    }
}

#[test]
fn cache_sizes_of_a_core() {
    let blocks = vec![block(1, "48K", "0"), block(1, "32K", "1"), block(2, "1280K", "0-1"), block(3, "24M", "0-7")];
    assert_eq!(cache_size_label(&blocks, 1, 1), "32K");
    assert_eq!(cache_size_label(&blocks, 2, 0), "1280K");
    assert_eq!(cache_size_label(&blocks, 2, 5), "??");
}

#[test]
fn each_socket_shows_its_own_caches() {
    let blocks = vec![
        block(3, "24M", "0-3"),
        block(2, "1M", "0-1"),
        block(3, "32M", "4-7"),
        block(3, "8M", "2,9"),
    ];
    let socket0 = vec![mk_core(0, 0, 0), mk_core(1, 0, 0)];
    let socket1 = vec![mk_core(5, 0, 1), mk_core(9, 1, 1)];
    let l3_0 = package_caches(&blocks, 3, &socket0);
    assert_eq!(l3_0.len(), 1);
    assert_eq!(l3_0[0].size, "24M");
    let l3_1 = package_caches(&blocks, 3, &socket1);
    let sizes: Vec<&str> = l3_1.iter().map(|b| b.size.as_str()).collect();
    assert_eq!(sizes, vec!["32M", "8M"]);
    assert!(package_caches(&blocks, 3, &vec![]).is_empty());
}

fn metrics(exec_share: Ratio, pid: Option<u32>, class: WorkloadClassification) -> CoreMetrics {
    CoreMetrics {
        cpu_id: 0,
        exec_share,
        wait_share: None,
        llc_misses: None,
        ipc: None,
        current_pid: pid,
        classification: class,
    }
}

#[test]
fn core_labels_and_colours() {
    let busy = metrics(Ratio { num: 1, den: 100 }, Some(9), WorkloadClassification::ComputeBound);
    assert_eq!(core_label(Some(busy)), CoreLabel { pid: Some(9), show_ipc: true });
    let half = metrics(Ratio { num: 1, den: 200 }, Some(9), WorkloadClassification::Idle);
    assert_eq!(core_label(Some(half)), CoreLabel { pid: None, show_ipc: false });
    let none = metrics(Ratio { num: 0, den: 0 }, None, WorkloadClassification::MemoryBound);
    assert_eq!(core_label(Some(none)), CoreLabel { pid: None, show_ipc: false });
    assert_eq!(core_label(None), CoreLabel { pid: None, show_ipc: false });
    assert_eq!(core_rgb(None), (49, 50, 68));
    assert_eq!(core_rgb(Some(busy)), (166, 227, 161));
    assert_eq!(core_rgb(Some(none)), (249, 226, 175));
    let mut m = HashMap::new();
    m.insert(0u32, busy);
    assert_eq!(metrics_for(&m, 0), Some(busy));
    assert_eq!(metrics_for(&m, 1), None);
}

#[test]
fn layout_shares() {
    assert_eq!(share_percent(3), 33);
    assert_eq!(share_percent(1), 100);
    assert_eq!(share_percent(65537), 100);
    assert_eq!(grid_rows(5), 3);
    assert_eq!(grid_rows(4), 2);
    assert_eq!(grid_rows(0), 0);
    assert_eq!(grid_rows(1_000_000), 65535);
    assert_eq!(grid_cell(2, 0, 5), Some(4));
    assert_eq!(grid_cell(2, 1, 5), None);
    assert_eq!(centered_margin(80), 10);
    assert_eq!(centered_margin(75), 12);
}

#[test]
fn app_keys() {
    let mut app = App::new(SystemTopology::new());
    assert!(!app.should_quit && !app.show_help && app.metrics.is_empty());
    app.handle_key(KeyPress::Char('h'));
    assert!(app.show_help);
    app.handle_key(KeyPress::Char('?'));
    assert!(!app.show_help);
    app.handle_key(KeyPress::Char('x'));
    app.handle_key(KeyPress::Other);
    assert!(!app.should_quit);
    app.handle_key(KeyPress::Esc);
    assert!(app.should_quit);
    let mut app2 = App::new(SystemTopology::new());
    app2.handle_key(KeyPress::Char('q'));
    assert!(app2.should_quit);
    app2.toggle_help();
    assert!(app2.show_help);
    app2.quit();
    assert!(app2.should_quit);
    let mut fresh = HashMap::new();
    fresh.insert(4u32, metrics(Ratio { num: 0, den: 0 }, None, WorkloadClassification::Idle));
    app2.update_metrics(fresh);
    assert_eq!(app2.metrics.len(), 1);
}

#[test]
fn each_core_shows_in_its_own_socket() {
    let cores = vec![mk_core(0, 0, 1), mk_core(1, 0, 0), mk_core(2, 1, 1)];
    let ids = package_ids(&cores);
    for c in &cores {
        assert!(ids.contains(&c.package_id));
        for p in &ids {
            assert_eq!(package_cores(&cores, *p).contains(c), *p == c.package_id);
        }
    }
}

#[test]
fn sorted_cores_do_not_depend_on_discovery_order() {
    let mut a = SystemTopology::new();
    a.add_core(2, "1", "0");
    a.add_core(0, "0", "0");
    a.add_core(1, "0", "1");
    let mut b = SystemTopology::new();
    b.add_core(1, "0", "1");
    b.add_core(2, "1", "0");
    b.add_core(0, "0", "0");
    a.sort_cores();
    b.sort_cores();
    assert_eq!(a.cores, b.cores);
    assert_eq!(a.cores.len(), 3);
}
