use memo::cli::{
    apply_swap, deep_scan_pids, retain_nonzero, sort_listing, truncate, unaccounted_swap,
};
use memo::detail::{lsof_cwd, parse_ppid, split_args};
use memo::footprint::swap_data;
use memo::scanner::ProcessMemory;
use memo::top::parse_top_output;

fn pm(pid: i32, name: &str, rss: u64, swap: u64) -> ProcessMemory {
    let mut p = ProcessMemory::new(pid, name.into(), rss);
    p.swap = swap;
    p
}

#[test]
fn deep_scan_takes_processes_from_five_mib() {
    let five = 5 * 1024 * 1024;
    let procs = vec![pm(1, "a", five - 1, 0), pm(2, "b", five, 0), pm(3, "c", five * 3, 0)];
    assert_eq!(deep_scan_pids(&procs), vec![2, 3]);
}

#[test]
fn measured_swap_replaces_and_last_measurement_wins() {
    let mut procs = vec![pm(1, "a", 10, 7), pm(2, "b", 10, 0)];
    apply_swap(&mut procs, &vec![(2, 100), (9, 5), (2, 300)]);
    assert_eq!(procs[0].swap, 7);
    assert_eq!(procs[1].swap, 300);
}

#[test]
fn zero_processes_are_dropped() {
    let procs = vec![pm(1, "a", 0, 0), pm(2, "b", 0, 3), pm(3, "c", 4, 0)];
    let kept: Vec<i32> = retain_nonzero(procs).iter().map(|p| p.pid).collect();
    assert_eq!(kept, vec![2, 3]);
}

#[test]
fn listing_sorts_by_requested_column() {
    let procs = || vec![pm(1, "zeta", 10, 5), pm(2, "alpha", 30, 0), pm(3, "mid", 20, 50)];
    let ids = |v: Vec<ProcessMemory>| v.iter().map(|p| p.pid).collect::<Vec<i32>>();
    assert_eq!(ids(sort_listing(procs(), "rss")), vec![2, 3, 1]);
    assert_eq!(ids(sort_listing(procs(), "swap")), vec![3, 1, 2]);
    assert_eq!(ids(sort_listing(procs(), "name")), vec![2, 3, 1]);
    assert_eq!(ids(sort_listing(procs(), "total")), vec![3, 2, 1]);
    assert_eq!(ids(sort_listing(procs(), "anything")), vec![3, 2, 1]);
    // Ties keep their order.
    let tied = vec![pm(1, "a", 5, 0), pm(2, "b", 5, 0), pm(3, "c", 5, 0)];
    assert_eq!(ids(sort_listing(tied, "rss")), vec![1, 2, 3]);
}

#[test]
fn unaccounted_swap_note_threshold() {
    let mib = 1024 * 1024;
    let procs = vec![pm(1, "a", 0, 50 * mib), pm(2, "b", 0, 10 * mib)];
    assert_eq!(unaccounted_swap(200 * mib, &procs), Some(140 * mib));
    assert_eq!(unaccounted_swap(160 * mib, &procs), None);
    assert_eq!(unaccounted_swap(10, &procs), None);
}

#[test]
fn truncate_cuts_long_names() {
    assert_eq!(truncate("short", 35), "short");
    assert_eq!(truncate("exactly5", 8), "exactly5");
    assert_eq!(truncate("Google Chrome Helper (Renderer)", 10), "Google Ch…");
}

#[test]
fn top_rows_parse() {
    let out = "Processes: 500 total\nPID    CMPRS\n123    10M\n  456  2048K  \nabc 1\n789\n-5 0B\n";
    let rows = parse_top_output(out);
    assert_eq!(
        rows,
        vec![(123, "10M".to_string()), (456, "2048K".to_string()), (-5, "0B".to_string())]
    );
}

#[test]
fn detail_parsers() {
    assert_eq!(parse_ppid("  321\n"), Some(321));
    assert_eq!(parse_ppid("x"), None);
    assert_eq!(split_args("  node  vite --port 3000\n"), vec!["node", "vite", "--port", "3000"]);
    let lsof = "p123\nfcwd\nn/Users/me/deleted (deleted)\nn/Users/me/proj\r\nn/other\n";
    assert_eq!(lsof_cwd(lsof).as_deref(), Some("/Users/me/proj"));
    assert_eq!(lsof_cwd("p1\nfcwd\n"), None);
}

#[test]
fn swap_sums_categories() {
    assert_eq!(swap_data(&vec![1, 2, 3]).swapped_total, 6);
    assert_eq!(swap_data(&vec![]).swapped_total, 0);
}
