use gitkay::mem::{
    cgroup_files, cgroup_memory, cgroup_relative_path, parse_cgroup_limit, parse_meminfo, read,
    usable_bytes, MemInfo,
};

const SAMPLE: &str = "\
MemTotal:       32791884 kB
MemFree:         1234567 kB
MemAvailable:   16395942 kB
Buffers:          123456 kB
";

#[test]
fn parses_total_and_available_in_bytes() {
    let got = parse_meminfo(SAMPLE).expect("both fields present");
    assert_eq!(got.total, 32_791_884 * 1024);
    assert_eq!(got.available, 16_395_942 * 1024);
}

/// Half an answer is worse than none: without `MemTotal` the reserve would be
/// computed as zero, authorising a budget that ignores the whole point of it.
#[test]
fn a_missing_field_yields_nothing() {
    assert!(parse_meminfo("MemTotal: 100 kB\n").is_none());
    assert!(parse_meminfo("MemAvailable: 100 kB\n").is_none());
    assert!(parse_meminfo("").is_none());
}

/// `MemAvailable` is absent on kernels before 3.14. Falling back to `MemFree`
/// would badly understate what is obtainable, so there is deliberately no
/// fallback — the caller uses its static default instead.
#[test]
fn no_memavailable_means_no_answer() {
    assert!(parse_meminfo("MemTotal:  100 kB\nMemFree:   50 kB\n").is_none());
}

#[test]
fn cgroup_unlimited_reads_as_no_limit() {
    assert_eq!(parse_cgroup_limit("max\n"), None, "v2 spelling");
    assert_eq!(
        parse_cgroup_limit("9223372036854771712\n"),
        None,
        "v1 spells unlimited as an absurd number, not a sentinel"
    );
    assert_eq!(parse_cgroup_limit("garbage"), None);
}

#[test]
fn cgroup_path_prefers_v2_then_the_memory_controller() {
    assert_eq!(
        cgroup_relative_path("0::/user.slice/user-1000.slice/session.scope\n").as_deref(),
        Some("/user.slice/user-1000.slice/session.scope")
    );
    // v1: several lines, only the memory controller's path is ours.
    assert_eq!(
        cgroup_relative_path("8:cpu,cpuacct:/foo\n7:memory:/bar\n").as_deref(),
        Some("/bar")
    );
    // The root is the sysfs root already; appending "/" would double the slash.
    assert_eq!(cgroup_relative_path("0::/\n").as_deref(), Some(""));
    assert!(cgroup_relative_path("").is_none());
}

#[test]
fn cgroup_real_limit_parses() {
    assert_eq!(parse_cgroup_limit(" 2147483648 \n"), Some(2_147_483_648));
}

#[test]
fn the_reserve_is_left_alone() {
    let info = MemInfo { total: 1_000, available: 250 };
    assert_eq!(usable_bytes(Some(info)), Some(150));
    let short = MemInfo { total: 1_000, available: 60 };
    assert_eq!(usable_bytes(Some(short)), Some(0));
    // The hundredth is rounded down before it is multiplied.
    let odd = MemInfo { total: 199, available: 199 };
    assert_eq!(usable_bytes(Some(odd)), Some(189));
    assert_eq!(usable_bytes(None), None);
}

#[test]
fn the_tighter_of_host_and_group_counts() {
    let host = MemInfo { total: 1_000, available: 600 };
    assert_eq!(read(Some(host), None), Some(host));
    assert_eq!(
        read(Some(host), Some((500, 100))),
        Some(MemInfo { total: 500, available: 400 })
    );
    assert_eq!(
        read(Some(host), Some((2_000, 100))),
        Some(MemInfo { total: 1_000, available: 600 })
    );
    // A group that uses more than its limit has nothing left.
    assert_eq!(
        read(Some(host), Some((500, 900))),
        Some(MemInfo { total: 500, available: 0 })
    );
    assert_eq!(read(None, Some((500, 100))), None);
}

#[test]
fn a_size_that_does_not_fit_yields_nothing() {
    let huge = format!("MemTotal: {} kB\nMemAvailable: 1 kB\n", u64::MAX);
    assert!(parse_meminfo(&huge).is_none());
    let most = format!("MemTotal: {} kB\nMemAvailable: +1 kB\n", u64::MAX / 1024);
    let got = parse_meminfo(&most).expect("both fit");
    assert_eq!(got.total, u64::MAX / 1024 * 1024);
    assert_eq!(got.available, 1024);
}

#[test]
fn a_group_without_a_limit_says_nothing() {
    assert_eq!(cgroup_memory(Some("4096\n"), Some("1024\n")), Some((4096, 1024)));
    assert_eq!(cgroup_memory(Some("4096\n"), None), Some((4096, 0)));
    assert_eq!(cgroup_memory(Some("4096\n"), Some("?")), Some((4096, 0)));
    assert_eq!(cgroup_memory(Some("max\n"), Some("1024\n")), None);
    assert_eq!(cgroup_memory(None, Some("1024\n")), None);
}

#[test]
fn the_files_of_a_group_are_named_for_its_version() {
    assert_eq!(
        cgroup_files("/a", true),
        (
            "/sys/fs/cgroup/a/memory.max".to_owned(),
            "/sys/fs/cgroup/a/memory.current".to_owned()
        )
    );
    assert_eq!(
        cgroup_files("/a", false),
        (
            "/sys/fs/cgroup/memory/a/memory.limit_in_bytes".to_owned(),
            "/sys/fs/cgroup/memory/a/memory.usage_in_bytes".to_owned()
        )
    );
}
