use memo::group::{
    canonical_app_name, find_marker_up_among, find_marker_up_in, group_by_roots,
    first_reported, marker_probe_paths, project_root_in, root_probe_paths,
    group_processes, project_root_among, runtime_family, shorten_in, excluded_in, AppGroup,
    GroupKind, GroupMode,
};
use memo::scanner::ProcessMemory;

const HOME: &str = "/tmp/memo-test-home";

fn pm(pid: i32, name: &str, rss: u64) -> ProcessMemory {
    ProcessMemory::new(pid, name.into(), rss)
}

fn pm_cwd(pid: i32, name: &str, rss: u64, cwd: &str, cmdline: &str) -> ProcessMemory {
    ProcessMemory {
        pid,
        name: name.into(),
        cmdline: cmdline.into(),
        cwd: cwd.into(),
        rss,
        swap: 0,
        threads: 1,
    }
}

/// Project roots of the processes when exactly the paths in `existing` exist.
fn roots_among(procs: &[ProcessMemory], home: &str, existing: &[String]) -> Vec<Option<String>> {
    let existing: Vec<String> = existing.to_vec();
    procs
        .iter()
        .map(|p| project_root_among(&p.cwd, &p.cmdline, home, &existing))
        .collect()
}

fn group_roots(g: &AppGroup, home: &str, existing: &[String]) -> Vec<Option<String>> {
    roots_among(&g.processes, home, existing)
}

#[test]
fn app_mode_groups_chrome_helpers() {
    let groups = group_processes(
        &[
            pm(1, "Google Chrome", 100),
            pm(2, "Google Chrome Helper (Renderer)", 200),
            pm(3, "Google Chrome Helper (GPU)", 50),
        ],
        GroupMode::App,
        HOME,
    );
    assert_eq!(groups.len(), 1);
    assert_eq!(groups[0].name, "Google Chrome");
    assert_eq!(groups[0].kind, GroupKind::App);
    assert_eq!(groups[0].processes.len(), 3);
    assert_eq!(groups[0].total_rss, 350);
}

#[test]
fn app_mode_merges_node_into_one_row() {
    // Two node procs from different projects collapse to one "node" group;
    // the bridge carries the per-project split.
    let home = HOME;
    let existing = vec![
        format!("{}/projA/package.json", home),
        format!("{}/projB/package.json", home),
    ];
    let procs = [
        pm_cwd(10, "node", 300, &format!("{}/projA", home), "node vite"),
        pm_cwd(11, "node", 200, &format!("{}/projB", home), "node vite"),
    ];
    let roots = roots_among(&procs, home, &existing);
    let groups = group_by_roots(&procs, GroupMode::App, home, &roots);
    assert_eq!(groups.len(), 1);
    assert_eq!(groups[0].name, "node");
    let groots = group_roots(&groups[0], home, &existing);
    assert_eq!(groups[0].bridge_by_roots(GroupMode::App, home, &groots), "2 projects");
}

#[test]
fn project_mode_merges_all_runtimes_of_one_project() {
    let home = HOME;
    let existing = vec![format!("{}/self-calendar/.git", home)];
    let procs = [
        pm_cwd(1, "node", 500, &format!("{}/self-calendar", home), "node vite"),
        pm_cwd(2, "bun", 300, &format!("{}/self-calendar", home), "bun start"),
        pm_cwd(3, "-zsh", 10, &format!("{}/self-calendar", home), "-zsh"),
    ];
    let roots = roots_among(&procs, home, &existing);
    let groups = group_by_roots(&procs, GroupMode::Project, home, &roots);
    assert_eq!(groups.len(), 1, "all three collapse to one project group");
    assert_eq!(groups[0].kind, GroupKind::Project);
    assert!(groups[0].name.ends_with("self-calendar"));
    assert_eq!(groups[0].processes.len(), 3);
    // runtime breakdown, count-sorted then name-sorted: bun:1 node:1 zsh:1
    let groots = group_roots(&groups[0], home, &existing);
    assert_eq!(groups[0].bridge_by_roots(GroupMode::Project, home, &groots), "bun:1 node:1 zsh:1");
}

#[test]
fn project_mode_app_fallback_for_slack() {
    let home = HOME;
    let procs = [pm_cwd(1, "Slack Helper (Renderer)", 200, "/nonexistent", "")];
    let roots = roots_among(&procs, home, &[]);
    let groups = group_by_roots(&procs, GroupMode::Project, home, &roots);
    assert_eq!(groups.len(), 1);
    assert_eq!(groups[0].name, "Slack");
    assert_eq!(groups[0].kind, GroupKind::App);
    // The same process through the disk-probing entry point.
    let on_disk = group_processes(&procs, GroupMode::Project, home);
    assert_eq!(on_disk.len(), 1);
    assert_eq!(on_disk[0].name, "Slack");
}

#[test]
fn marker_walkup_collapses_nested_subdir() {
    let home = HOME;
    let existing = vec![format!("{}/proj/.git", home)];
    let root = find_marker_up_among(&format!("{}/proj/vendor/pkg/deep", home), home, &existing);
    assert_eq!(root.as_deref(), Some(format!("{}/proj", home).as_str()));
}

#[test]
fn marker_walkup_excludes_editor_internals() {
    let home = HOME;
    let zed = format!("{}/Library/Application Support/Zed/x", home);
    let existing = vec![format!("{}/package.json", zed)];
    // Even though a marker exists, the path is excluded.
    let root = find_marker_up_among(&zed, home, &existing);
    assert!(root.is_none(), "editor internal paths must not become projects");
    assert!(excluded_in(&zed, home));
    assert!(find_marker_up_in(&zed, home).is_none());
}

#[test]
fn runtime_family_maps_known_runtimes() {
    assert_eq!(runtime_family("node"), "node");
    assert_eq!(runtime_family("node-repl"), "node");
    assert_eq!(runtime_family("python3.11"), "python");
    assert_eq!(runtime_family("-zsh"), "zsh"); // login shell → family zsh
    assert_eq!(runtime_family("vite"), "vite"); // unknown passthrough
}

#[test]
fn shorten_replaces_home_prefix() {
    let home = "/Users/test";
    assert_eq!(shorten_in("/Users/test/proj", home), "~/proj");
    assert_eq!(shorten_in("/Users/test", home), "~");
    assert_eq!(shorten_in("/opt/other", home), "/opt/other");
}

#[test]
fn canonical_names_follow_the_rules() {
    assert_eq!(canonical_app_name("Slack Helper (GPU)", ""), "Slack");
    assert_eq!(canonical_app_name("Notion Helper (Renderer)", ""), "Notion");
    assert_eq!(canonical_app_name("Foo Helper", ""), "Foo");
    assert_eq!(canonical_app_name("java", "/opt/idea/lib/idea.jar"), "IntelliJ IDEA");
    assert_eq!(canonical_app_name("java", "-jar server.jar"), "java");
    assert_eq!(canonical_app_name("Electron", "/Applications/Cursor.app cursor"), "Cursor");
    // Editors are told by their helper names before the generic helper rule.
    assert_eq!(canonical_app_name("Code Helper (Plugin)", ""), "VS Code");
    assert_eq!(canonical_app_name("Code Helper (Renderer)", ""), "VS Code");
    assert_eq!(canonical_app_name("Cursor Helper (GPU)", ""), "Cursor");
    assert_eq!(canonical_app_name("Windsurf Helper", ""), "Windsurf");
    assert_eq!(canonical_app_name("Electron", "/Applications/x.app --vscode"), "VS Code");
    assert_eq!(canonical_app_name("python3.12", ""), "Python");
    assert_eq!(canonical_app_name("node-repl", ""), "node");
    assert_eq!(canonical_app_name("com.docker.backend", ""), "Docker");
    assert_eq!(canonical_app_name("Opera GX", ""), "Opera");
    assert_eq!(canonical_app_name("kernel_task", ""), "kernel_task");
}

#[test]
fn groups_come_largest_total_first_and_keep_every_process() {
    let mut big = pm(7, "Slack", 10);
    big.swap = 1000;
    let procs = [
        pm(1, "node", 300),
        pm(2, "bun", 50),
        big,
        pm(4, "node", 400),
    ];
    let groups = group_processes(&procs, GroupMode::App, HOME);
    let names: Vec<&str> = groups.iter().map(|g| g.name.as_str()).collect();
    assert_eq!(names, vec!["Slack", "node", "bun"]);
    // Within a group, largest resident first.
    assert_eq!(groups[1].processes[0].pid, 4);
    assert_eq!(groups[1].processes[1].pid, 1);
    assert_eq!(groups[1].total_rss, 700);
    assert_eq!(groups[0].total(), 1010);
    let count: usize = groups.iter().map(|g| g.processes.len()).sum();
    assert_eq!(count, procs.len());
}

#[test]
fn project_root_falls_back_to_command_line_path() {
    let home = HOME;
    let existing = vec![format!("{}/api/pyproject.toml", home)];
    let root = project_root_among("/", &format!("python {}/api/main.py", home), home, &existing);
    assert_eq!(root, Some(format!("{}/api", home)));
    // A path outside home on the command line is not considered.
    let none = project_root_among("/", "python /opt/api/main.py", home, &existing);
    assert_eq!(none, None);
}

#[test]
fn walkup_stops_at_home() {
    let home = HOME;
    // A marker in home itself is found, one above home is not.
    let in_home = vec![format!("{}/.git", home)];
    assert_eq!(
        find_marker_up_among(&format!("{}/a/b", home), home, &in_home),
        Some(home.to_string())
    );
    let above = vec!["/tmp/.git".to_string()];
    assert_eq!(find_marker_up_among(&format!("{}/a/b", home), home, &above), None);
}

#[test]
fn bridge_reads_app_for_app_fallback_in_project_mode() {
    let procs = [pm(1, "Slack", 10)];
    let groups = group_by_roots(&procs, GroupMode::Project, HOME, &vec![None]);
    assert_eq!(groups[0].bridge_by_roots(GroupMode::Project, HOME, &vec![None]), "(app)");
    assert_eq!(groups[0].bridge(GroupMode::Project, HOME), "(app)");
}

#[test]
fn bridge_counts_sort_by_count_then_name() {
    let home = HOME;
    let existing = vec![format!("{}/p/.git", home)];
    let dir = format!("{}/p", home);
    let procs = [
        pm_cwd(1, "zsh", 1, &dir, ""),
        pm_cwd(2, "node", 1, &dir, ""),
        pm_cwd(3, "npm", 1, &dir, ""),
        pm_cwd(4, "bun", 1, &dir, ""),
        pm_cwd(5, "Python", 1, &dir, ""),
    ];
    let roots = roots_among(&procs, home, &existing);
    let groups = group_by_roots(&procs, GroupMode::Project, home, &roots);
    assert_eq!(groups.len(), 1);
    assert_eq!(groups[0].name, "~/p");
    assert_eq!(groups[0].bridge_by_roots(GroupMode::Project, home, &vec![]), "node:2 bun:1 python:1 zsh:1");
}

#[test]
fn app_bridge_names_the_single_project() {
    let home = HOME;
    let existing = vec![format!("{}/web/package.json", home)];
    let procs = [
        pm_cwd(1, "node", 1, &format!("{}/web/src", home), ""),
        pm_cwd(2, "node", 1, &format!("{}/web", home), ""),
        pm_cwd(3, "node", 1, "/", ""),
    ];
    let roots = roots_among(&procs, home, &existing);
    let groups = group_by_roots(&procs, GroupMode::App, home, &roots);
    let groots = group_roots(&groups[0], home, &existing);
    assert_eq!(groups[0].bridge_by_roots(GroupMode::App, home, &groots), "~/web");
}

#[test]
fn name_rules_ignore_letter_case() {
    assert_eq!(canonical_app_name("SPOTIFY", ""), "Spotify");
    assert_eq!(canonical_app_name("Telegram Desktop", ""), "Telegram");
    assert_eq!(canonical_app_name("Python3", ""), "Python");
    assert_eq!(runtime_family("Node"), "node");
    assert_eq!(runtime_family("-ZSH"), "zsh");
}

const MARKERS: [&str; 10] = [
    ".git",
    "package.json",
    "pyproject.toml",
    "bun.lockb",
    "bun.lock",
    "Cargo.toml",
    "go.mod",
    "pom.xml",
    "Makefile",
    "composer.json",
];

fn probes_of(dirs: &[String]) -> Vec<String> {
    dirs.iter().flat_map(|d| MARKERS.iter().map(move |m| format!("{}/{}", d, m))).collect()
}

#[test]
fn disk_probes_go_nearest_directory_first() {
    let dir = format!("{}/proj/sub", HOME);
    let expected = probes_of(&[dir.clone(), format!("{}/proj", HOME), HOME.to_string()]);
    assert_eq!(marker_probe_paths(&dir, HOME), expected);
    assert!(marker_probe_paths("/opt/elsewhere", HOME).is_empty());
    let excluded = format!("{}/.cargo/registry", HOME);
    assert!(marker_probe_paths(&excluded, HOME).is_empty());
}

#[test]
fn root_probes_follow_cwd_then_command_line_paths() {
    let cwd = format!("{}/api", HOME);
    let script = format!("{}/web/main.js", HOME);
    let cmdline = format!("node /opt/x.js {}", script);
    let mut expected = probes_of(&[cwd.clone(), HOME.to_string()]);
    expected.extend(probes_of(&[script.clone(), format!("{}/web", HOME), HOME.to_string()]));
    assert_eq!(root_probe_paths(&cwd, &cmdline, HOME), expected);
}

#[test]
fn disk_search_finds_nothing_outside_home() {
    assert_eq!(find_marker_up_in("/opt/elsewhere", HOME), None);
    assert_eq!(project_root_in("/opt/elsewhere", "node /opt/x.js", HOME), None);
}

#[test]
fn first_reported_picks_the_first_present_answer() {
    let paths: Vec<String> = vec!["/a/.git".into(), "/a/package.json".into(), "/.git".into()];
    assert_eq!(first_reported(&paths, &vec![false, true]), vec!["/a/package.json".to_string()]);
    assert_eq!(first_reported(&paths, &vec![true, true, true]), vec!["/a/.git".to_string()]);
    assert!(first_reported(&paths, &vec![false, false, false]).is_empty());
    assert!(first_reported(&paths, &vec![]).is_empty());
}

#[test]
fn dot_components_are_dropped_when_walking_up() {
    let existing = vec![format!("{}/proj/.git", HOME)];
    let cmdline = format!("node {}/proj/./x.js", HOME);
    assert_eq!(
        project_root_among("/", &cmdline, HOME, &existing),
        Some(format!("{}/proj", HOME))
    );
    let dir = format!("{}/proj/./src/.", HOME);
    assert_eq!(find_marker_up_among(&dir, HOME, &existing), Some(format!("{}/proj", HOME)));
}
