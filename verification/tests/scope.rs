use build_plan::{
    AbsPath, BuildGraph, ChangedFiles, PackageArg, PackageMap, Planner, ProcessSpec, RawInvocation,
    RawPlan, Unit, UnitKey, WorkStatus,
};

fn path(text: &str) -> AbsPath {
    AbsPath::parse(text).unwrap()
}

fn spec(program: &str, args: &[&str]) -> ProcessSpec {
    ProcessSpec {
        program: program.to_string(),
        args: args.iter().map(|s| s.to_string()).collect(),
        env: Vec::new(),
        cwd: None,
    }
}

fn key(parts: &[&str]) -> UnitKey {
    UnitKey { parts: parts.iter().map(|s| s.to_string()).collect(), env: Vec::new() }
}

fn unit(parts: &[&str], src: Option<&str>, build_script: bool, cmd: Option<ProcessSpec>) -> Unit {
    Unit {
        key: key(parts),
        command: cmd,
        outputs: Vec::new(),
        links: Vec::new(),
        src_path: src.map(|s| path(s)),
        build_script,
    }
}

/// A workspace graph built by streaming insertion: a build script
/// (matched by exact file path) and a library that depends on it.
fn introspected_graph() -> BuildGraph {
    let mut g = BuildGraph::new();
    let script = || {
        unit(
            &["repo", "custom-build"],
            Some("/repo/build.rs"),
            true,
            Some(spec("rustc", &["--crate-name", "build_script_build", "/repo/build.rs"])),
        )
    };
    g.add(script(), Vec::new());
    g.add(
        unit(
            &["repo", "lib"],
            Some("/repo/src/lib.rs"),
            false,
            Some(spec("rustc", &["--crate-name", "repo", "/repo/src/lib.rs"])),
        ),
        vec![script()],
    );
    g
}

fn workspace_planner() -> Planner {
    let pm = PackageMap::new(vec![
        (path("/repo"), "repo".to_string()),
        (path("/other"), "other".to_string()),
    ]);
    let mut planner = Planner::with_packages(pm, vec!["repo".to_string()]);
    let g = introspected_graph();
    planner.install(g, vec!["repo".to_string()]);
    planner
}

fn package_names(arg: &PackageArg) -> Vec<String> {
    match arg {
        PackageArg::Default => panic!("expected an explicit package set"),
        PackageArg::Packages(p) => {
            let mut p = p.clone();
            p.sort();
            p
        },
    }
}

#[test]
fn empty_cache_defers_to_build_tool() {
    let mut planner = Planner::new();
    let files = vec![path("/repo/src/lib.rs")];
    match planner.prepare_work(&files) {
        WorkStatus::NeedsCargo(PackageArg::Default) => {},
        _ => panic!("an empty cache must request a full rebuild"),
    }
}

#[test]
fn out_of_scope_package_expands_the_scope() {
    let mut planner = workspace_planner();
    let files = vec![path("/other/src/lib.rs")];
    match planner.prepare_work(&files) {
        WorkStatus::NeedsCargo(arg) => {
            assert_eq!(package_names(&arg), vec!["other".to_string(), "repo".to_string()]);
        },
        WorkStatus::Execute(_) => panic!("a file of an unbuilt package cannot be replayed"),
    }
}

#[test]
fn changed_build_script_defers_to_build_tool() {
    let mut planner = workspace_planner();
    let files = vec![path("/repo/build.rs")];
    match planner.prepare_work(&files) {
        WorkStatus::NeedsCargo(arg) => {
            assert_eq!(package_names(&arg), vec!["repo".to_string()]);
        },
        WorkStatus::Execute(_) => panic!("a changed build script cannot be replayed"),
    }
}

#[test]
fn in_scope_change_is_replayed() {
    let mut planner = workspace_planner();
    let files = vec![path("/repo/src/lib.rs")];
    match planner.prepare_work(&files) {
        WorkStatus::Execute(q) => {
            let cmds = q.commands();
            assert_eq!(cmds.len(), 1);
            assert_eq!(cmds[0].program, "rustc");
            assert_eq!(
                cmds[0].args,
                vec!["--crate-name".to_string(), "repo".to_string(), "/repo/src/lib.rs".to_string()],
            );
        },
        WorkStatus::NeedsCargo(_) => panic!("an in-scope library change must be replayed"),
    }
}

#[test]
fn file_outside_known_graph_defers_to_build_tool() {
    let mut planner = workspace_planner();
    // Inside a built package, but no unit matches the file's directory.
    let files = vec![path("/repo/assets/logo.txt")];
    match planner.prepare_work(&files) {
        WorkStatus::NeedsCargo(PackageArg::Default) => {},
        _ => panic!("with nothing dirty the cache answers nothing useful"),
    }
}

#[test]
fn missing_cached_invocation_defers_to_build_tool() {
    // The library was only ever seen as a dependency edge: no command.
    let mut g = BuildGraph::new();
    g.add(
        unit(&["repo", "bin"], Some("/repo/src/main.rs"), false, Some(spec("rustc", &["m"]))),
        vec![unit(&["repo", "lib"], Some("/repo/src/lib.rs"), false, None)],
    );
    let files = vec![path("/repo/src/anything.rs")];
    match g.prepare_work(&files) {
        WorkStatus::NeedsCargo(PackageArg::Default) => {},
        _ => panic!("a unit without a cached invocation must not be skipped"),
    }
}

#[test]
fn cache_compiler_job_completes_the_plan() {
    let mut g = BuildGraph::new();
    g.add(
        unit(&["repo", "bin"], Some("/repo/src/main.rs"), false, Some(spec("rustc", &["m"]))),
        vec![unit(&["repo", "lib"], Some("/repo/src/lib.rs"), false, None)],
    );
    assert!(g.cache_compiler_job(&key(&["repo", "lib"]), &spec("rustc", &["l"])));
    assert!(!g.cache_compiler_job(&key(&["repo", "nothere"]), &spec("rustc", &["x"])));
    let files = vec![path("/repo/src/anything.rs")];
    match g.prepare_work(&files) {
        WorkStatus::Execute(q) => {
            // Both units are affected (tied directories); the dependency
            // runs first.
            let cmds = q.commands();
            assert_eq!(cmds.len(), 2);
            assert_eq!(cmds[0].args, vec!["l".to_string()]);
            assert_eq!(cmds[1].args, vec!["m".to_string()]);
        },
        WorkStatus::NeedsCargo(_) => panic!("everything is cached now"),
    }
}

#[test]
fn package_map_longest_root_wins() {
    let roots = vec![
        (path("/ws"), "workspace".to_string()),
        (path("/ws/member"), "member".to_string()),
    ];
    let owner = PackageMap::map_uncached(&path("/ws/member/src/lib.rs"), &roots);
    assert_eq!(owner, Some("member".to_string()));
    let owner = PackageMap::map_uncached(&path("/ws/other/src/lib.rs"), &roots);
    assert_eq!(owner, Some("workspace".to_string()));
    let owner = PackageMap::map_uncached(&path("/elsewhere/x.rs"), &roots);
    assert_eq!(owner, None);
}

#[test]
fn package_map_caches_lookups() {
    let mut pm = PackageMap::new(vec![(path("/ws"), "workspace".to_string())]);
    let file = path("/ws/src/lib.rs");
    assert_eq!(pm.map(&file), Some("workspace".to_string()));
    // The second lookup is served from the cache and agrees.
    assert_eq!(pm.map(&file), Some("workspace".to_string()));
    assert_eq!(pm.map(&path("/nowhere/x.rs")), None);
}

#[test]
fn dirty_packages_are_collected_once() {
    let mut pm = PackageMap::new(vec![
        (path("/ws/a"), "a".to_string()),
        (path("/ws/b"), "b".to_string()),
    ]);
    let files = vec![
        path("/ws/a/src/lib.rs"),
        path("/ws/a/src/other.rs"),
        path("/ws/b/build.rs"),
        path("/outside/x.rs"),
    ];
    let mut pkgs = pm.compute_dirty_packages(&files);
    pkgs.sort();
    assert_eq!(pkgs, vec!["a".to_string(), "b".to_string()]);
}

#[test]
fn changed_files_overlay_lookup() {
    let overlay = ChangedFiles::from_entries(vec![
        (path("/repo/src/lib.rs"), "pub fn f() {}".to_string()),
    ]);
    assert_eq!(overlay.get(&path("/repo/src/lib.rs")), Some(&"pub fn f() {}".to_string()));
    assert_eq!(overlay.get(&path("/repo/src/other.rs")), None);
}

#[test]
fn paths_parse_and_normalize() {
    assert!(AbsPath::parse("relative/path.rs").is_none());
    assert!(AbsPath::parse("").is_none());
    let p = AbsPath::parse("/a//b/").unwrap();
    assert_eq!(p.components, vec!["a".to_string(), "b".to_string()]);
    let root = AbsPath::parse("/").unwrap();
    assert!(root.components.is_empty());
    let dir = AbsPath::parse("/a/b/c.rs").unwrap().parent().unwrap();
    assert_eq!(dir.components, vec!["a".to_string(), "b".to_string()]);
    assert!(root.parent().is_none());
}

#[test]
fn identity_distinguishes_commands() {
    let record = |v: &str| RawInvocation {
        deps: Vec::new(),
        outputs: Vec::new(),
        links: Vec::new(),
        program: "rustc".to_string(),
        args: vec!["--crate-name".to_string(), "a".to_string(), "/r/a.rs".to_string()],
        env: vec![("K".to_string(), v.to_string())],
        cwd: None,
    };
    let raw = RawPlan { invocations: vec![record("1"), record("2")] };
    let g = BuildGraph::try_from_raw(raw).unwrap();
    assert_eq!(g.unit_count(), 2);

    let raw = RawPlan { invocations: vec![record("1"), record("1")] };
    let g = BuildGraph::try_from_raw(raw).unwrap();
    assert_eq!(g.unit_count(), 1);
}
