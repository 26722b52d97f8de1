use memo::scanner::{
    extract_swap_field, format_size, get_system_memory, parse_sysctl_value, parse_vm_stat,
    parse_vm_stats, ProcessMemory, SwapInfo, VmStats,
};

fn float_format(bytes: u64) -> String {
    const K: f64 = 1024.0;
    const M: f64 = 1024.0 * 1024.0;
    const G: f64 = 1024.0 * 1024.0 * 1024.0;
    let b = bytes as f64;
    if bytes >= G as u64 {
        format!("{:.1}G", b / G)
    } else if bytes >= M as u64 {
        format!("{:.1}M", b / M)
    } else if bytes >= K as u64 {
        format!("{:.1}K", b / K)
    } else {
        format!("{}B", bytes)
    }
}

#[test]
fn format_size_examples() {
    assert_eq!(format_size(0), "0B");
    assert_eq!(format_size(512), "512B");
    assert_eq!(format_size(1023), "1023B");
    assert_eq!(format_size(1024), "1.0K");
    assert_eq!(format_size(1536), "1.5K");
    assert_eq!(format_size(5 * 1024 * 1024), "5.0M");
    assert_eq!(format_size(191 * 1024 * 1024 + 1024 * 1024 / 10 * 0), "191.0M");
    assert_eq!(format_size(3 * 1024 * 1024 * 1024 + 400 * 1024 * 1024), "3.4G");
}

#[test]
fn format_size_matches_float_formatting() {
    let g: u64 = 1024 * 1024 * 1024;
    let mut samples: Vec<u64> = vec![
        0, 1, 9, 10, 99, 100, 1000, 1023, 1024, 1025, 1075, 1076, 1126, 1127, 1177, 1178,
        1280, 1331, 1332, 1433, 1434, 1536, 1638, 1639, 10239, 10240, 1048063, 1048064,
        1048575, 1048576, 1310720, 1363148, 1363149, 1073741823, 1073741824, 1342177280,
        1395864371, 1395864372, 3 * g / 2, 5 * g / 4, 7 * g / 4, 21 * g / 20, 1 << 52,
        (1 << 53) - 1, 1 << 53, (1 << 53) + 1, (1 << 54) + 3, u64::MAX, u64::MAX - 1,
        u64::MAX / 3, 17179869184, 9007199254740993, 18446744073709550591,
    ];
    // Halfway points between tenths of each unit, and their neighbours.
    for unit in [1024u64, 1024 * 1024, g] {
        for t in 10u64..400 {
            let half = (2 * t + 1) * unit / 20;
            samples.push(half);
            samples.push(half + 1);
            samples.push(half.saturating_sub(1));
        }
    }
    let mut x: u64 = 0x9e37_79b9_7f4a_7c15;
    for _ in 0..20000 {
        x ^= x << 13;
        x ^= x >> 7;
        x ^= x << 17;
        samples.push(x >> (x % 60));
    }
    for b in samples {
        assert_eq!(format_size(b), float_format(b), "bytes = {}", b);
    }
}

#[test]
fn process_total_saturates() {
    let mut p = ProcessMemory::new(1, "a".into(), u64::MAX - 1);
    p.swap = 5;
    assert_eq!(p.total(), u64::MAX);
    let q = ProcessMemory::new(2, "b".into(), 7);
    assert_eq!(q.total(), 7);
    assert_eq!(q.threads, 1);
    assert!(q.cmdline.is_empty());
}

const VM_STAT: &str = "Mach Virtual Memory Statistics: (page size of 16384 bytes)\n\
Pages free:                               12345.\n\
Pages active:                            200000.\n\
Pages inactive:                          190000.\n\
Pages speculative:                         3000.\n\
Pages throttled:                              0.\n\
Pages wired down:                        150000.\n\
Pages purgeable:                           1000.\n\
\"Translation faults\":                 123456789.\n\
Pages copy-on-write:                    5555555.\n\
File-backed pages:                        90000.\n\
Anonymous pages:                         300000.\n\
Pages stored in compressor:              800000.\n\
Pages occupied by compressor:            250000.\n";

#[test]
fn vm_stat_output_parses() {
    let s = parse_vm_stats(VM_STAT);
    assert_eq!(s.free_count, 12345);
    assert_eq!(s.active_count, 200000);
    assert_eq!(s.wire_count, 150000);
    assert_eq!(s.speculative_count, 3000);
    assert_eq!(s.purgeable_count, 1000);
    assert_eq!(s.file_backed_count, 90000);
    assert_eq!(s.compressor_page_count, 250000);
}

#[test]
fn vm_stat_line_rules() {
    let mut v = 7u64;
    parse_vm_stat("Pages free:   1,234.", "Pages free:", &mut v);
    assert_eq!(v, 1234);
    parse_vm_stat("Pages free:   abc.", "Pages free:", &mut v);
    assert_eq!(v, 1234);
    parse_vm_stat("Pages active: 99.", "Pages free:", &mut v);
    assert_eq!(v, 1234);
    parse_vm_stat("Pages free:Pages free: 42", "Pages free:", &mut v);
    assert_eq!(v, 42);
}

#[test]
fn swapusage_fields() {
    let text = "vm.swapusage: total = 2048.00M  used = 1024.50M  free = 1023.50M  (encrypted)";
    assert_eq!(extract_swap_field(text, "total = ").as_deref(), Some("2048.00M"));
    assert_eq!(extract_swap_field(text, "used = ").as_deref(), Some("1024.50M"));
    assert_eq!(extract_swap_field(text, "missing = "), None);
    assert_eq!(extract_swap_field("x total = ", "total = "), None);
}

#[test]
fn sysctl_values() {
    assert_eq!(parse_sysctl_value(Some("16384\n"), 4096), 16384);
    assert_eq!(parse_sysctl_value(Some("  +8 "), 4096), 8);
    assert_eq!(parse_sysctl_value(Some("garbage"), 4096), 4096);
    assert_eq!(parse_sysctl_value(Some(""), 4096), 4096);
    assert_eq!(parse_sysctl_value(None, 16384), 16384);
    assert_eq!(parse_sysctl_value(Some("18446744073709551616"), 1), 1);
}

#[test]
fn system_memory_breakdown() {
    let vm = VmStats {
        free_count: 10,
        active_count: 100,
        wire_count: 50,
        compressor_page_count: 20,
        purgeable_count: 5,
        speculative_count: 3,
        file_backed_count: 40,
    };
    let swap = SwapInfo { total: 1000, used: 250 };
    let m = get_system_memory(1_000_000, 1000, &vm, &swap);
    assert_eq!(m.total_bytes, 1_000_000);
    assert_eq!(m.free_bytes, 10_000);
    assert_eq!(m.wired, 50_000);
    assert_eq!(m.compressed, 20_000);
    assert_eq!(m.cache, 40_000);
    assert_eq!(m.app_memory, 100_000 + 3_000 - 5_000);
    assert_eq!(m.used_bytes, 1_000_000 - 10_000 - 40_000 - 5_000);
    assert_eq!(m.swap_total, 1000);
    assert_eq!(m.swap_used, 250);
    // Subtractions stop at zero.
    let small = get_system_memory(100, 1000, &vm, &swap);
    assert_eq!(small.used_bytes, 0);
}
