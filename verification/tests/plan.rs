use build_plan::{AbsPath, BuildGraph, CrateAnalysis, RawInvocation, RawPlan};

fn inv(program: &str, args: &[&str], deps: &[usize]) -> RawInvocation {
    RawInvocation {
        deps: deps.to_vec(),
        outputs: Vec::new(),
        links: Vec::new(),
        program: program.to_string(),
        args: args.iter().map(|s| s.to_string()).collect(),
        env: Vec::new(),
        cwd: None,
    }
}

/// The two-unit plan the resolver tests run against: a build script at
/// `/my/repo/build.rs` and a library at `/my/repo/src/lib.rs` that
/// depends on it.
fn repo_plan() -> BuildGraph {
    let raw = RawPlan {
        invocations: vec![
            inv(
                "rustc",
                &["--crate-name", "build_script_build", "/my/repo/build.rs"],
                &[],
            ),
            inv("rustc", &["--crate-name", "repo", "/my/repo/src/lib.rs"], &[0]),
        ],
    };
    BuildGraph::try_from_raw(raw).unwrap()
}

fn path(text: &str) -> AbsPath {
    AbsPath::parse(text).unwrap()
}

fn path_text(p: &AbsPath) -> String {
    let mut s = String::new();
    for c in &p.components {
        s.push('/');
        s.push_str(c);
    }
    s
}

fn src_paths(g: &BuildGraph, idxs: &[usize]) -> Vec<String> {
    let mut out: Vec<String> = idxs
        .iter()
        .filter_map(|&i| g.unit_at(i).unwrap().src_path.as_ref().map(path_text))
        .collect();
    out.sort();
    out
}

fn dirty_paths(g: &BuildGraph, file: &str) -> Vec<String> {
    let files = vec![path(file)];
    let d = g.dirties(&files);
    src_paths(g, &d)
}

#[test]
fn dirty_units_path_heuristics() {
    let plan = repo_plan();

    assert_eq!(dirty_paths(&plan, "/my/dummy.rs"), Vec::<String>::new());
    assert_eq!(dirty_paths(&plan, "/my/repo/dummy.rs"), vec!["/my/repo/build.rs"]);
    assert_eq!(dirty_paths(&plan, "/my/repo/src/c.rs"), vec!["/my/repo/src/lib.rs"]);
    assert_eq!(dirty_paths(&plan, "/my/repo/src/a/b.rs"), vec!["/my/repo/src/lib.rs"]);
}

#[test]
fn dirties_transitive() {
    let plan = repo_plan();

    assert_eq!(dirty_paths(&plan, "/my/repo/src/a/b.rs"), vec!["/my/repo/src/lib.rs"]);

    let files = vec![path("/my/repo/file.rs")];
    let closure = plan.dirties_transitive(&files);
    assert_eq!(
        src_paths(&plan, &closure),
        vec!["/my/repo/build.rs", "/my/repo/src/lib.rs"],
    );

    let files = vec![path("/my/repo/src/file.rs")];
    let closure = plan.dirties_transitive(&files);
    assert_eq!(src_paths(&plan, &closure), vec!["/my/repo/src/lib.rs"]);
}

#[test]
fn topological_sort() {
    let plan = repo_plan();

    let files = vec![path("/my/repo/file.rs")];
    let units_to_rebuild = plan.dirties_transitive(&files);
    assert_eq!(
        src_paths(&plan, &units_to_rebuild),
        vec!["/my/repo/build.rs", "/my/repo/src/lib.rs"],
    );

    // Dependencies come first in the returned order, so the build script
    // precedes the library that depends on it.
    let topo_units = plan.topological_sort(&units_to_rebuild);
    let ordered: Vec<String> = topo_units
        .iter()
        .filter_map(|&i| plan.unit_at(i).unwrap().src_path.as_ref().map(path_text))
        .collect();
    assert_eq!(ordered, vec!["/my/repo/build.rs", "/my/repo/src/lib.rs"]);
}

#[test]
fn round_trip_preserves_counts() {
    let plan = repo_plan();
    assert_eq!(plan.unit_count(), 2);
    let mut edges = 0;
    for i in 0..plan.unit_count() {
        edges += plan.deps(i).len();
    }
    assert_eq!(edges, 1);
}

#[test]
fn out_of_range_dependency_is_rejected_whole() {
    let raw = RawPlan {
        invocations: vec![
            inv("rustc", &["--crate-name", "a", "/r/a.rs"], &[]),
            inv("rustc", &["--crate-name", "b", "/r/b.rs"], &[5]),
        ],
    };
    assert!(BuildGraph::try_from_raw(raw).is_err());
}

#[test]
fn duplicate_identities_coalesce_to_first() {
    // The same invocation appears twice: once on its own and once as
    // someone's dependency. One node results, and the edge lands on it.
    let raw = RawPlan {
        invocations: vec![
            inv("rustc", &["--crate-name", "s", "/r/build.rs"], &[]),
            inv("rustc", &["--crate-name", "s", "/r/build.rs"], &[]),
            inv("rustc", &["--crate-name", "m", "/r/src/main.rs"], &[1]),
        ],
    };
    let g = BuildGraph::try_from_raw(raw).unwrap();
    assert_eq!(g.unit_count(), 2);
    let files = vec![path("/r/file.rs")];
    let closure = g.dirties_transitive(&files);
    assert_eq!(src_paths(&g, &closure), vec!["/r/build.rs", "/r/src/main.rs"]);
}

#[test]
fn no_match_yields_empty_dirty_set() {
    let plan = repo_plan();
    let files = vec![path("/somewhere/else/entirely.c")];
    assert!(plan.dirties(&files).is_empty());
    assert!(plan.dirties_transitive(&files).is_empty());
}

#[test]
fn most_specific_directory_wins() {
    // Unit a is rooted at /repo, unit b at /repo/src; a change under
    // /repo/src belongs to b alone.
    let raw = RawPlan {
        invocations: vec![
            inv("rustc", &["--crate-name", "a", "/repo/root.rs"], &[]),
            inv("rustc", &["--crate-name", "b", "/repo/src/lib.rs"], &[0]),
        ],
    };
    let g = BuildGraph::try_from_raw(raw).unwrap();
    assert_eq!(dirty_paths(&g, "/repo/src/lib.rs"), vec!["/repo/src/lib.rs"]);
}

#[test]
fn tied_directories_are_all_kept() {
    // A library and its test harness sit in the same directory; a change
    // there dirties both.
    let raw = RawPlan {
        invocations: vec![
            inv("rustc", &["--crate-name", "lib", "/w/src/lib.rs"], &[]),
            inv("rustc", &["--crate-name", "harness", "/w/src/harness.rs"], &[0]),
        ],
    };
    let g = BuildGraph::try_from_raw(raw).unwrap();
    assert_eq!(
        dirty_paths(&g, "/w/src/other.rs"),
        vec!["/w/src/harness.rs", "/w/src/lib.rs"],
    );
}

#[test]
fn diamond_counted_once_and_resolution_idempotent() {
    // d <- b <- a, d <- c <- a: a is reachable from d on two paths but
    // appears once; re-running yields the same set.
    let raw = RawPlan {
        invocations: vec![
            inv("rustc", &["--crate-name", "d", "/w/d/lib.rs"], &[]),
            inv("rustc", &["--crate-name", "b", "/w/b/lib.rs"], &[0]),
            inv("rustc", &["--crate-name", "c", "/w/c/lib.rs"], &[0]),
            inv("rustc", &["--crate-name", "a", "/w/a/lib.rs"], &[1, 2]),
        ],
    };
    let g = BuildGraph::try_from_raw(raw).unwrap();
    let files = vec![path("/w/d/other.rs")];
    let first = g.dirties_transitive(&files);
    assert_eq!(first.len(), 4);
    let mut a = first.clone();
    a.sort();
    let mut b = g.dirties_transitive(&files);
    b.sort();
    assert_eq!(a, b);

    // Monotonicity: the direct dirty set is inside its own closure.
    let dirty = g.dirties(&files);
    for u in &dirty {
        assert!(first.contains(u));
    }

    // Topological validity on the diamond: every dependency precedes its
    // dependents.
    let order = g.topological_sort(&first);
    let pos = |u: usize| order.iter().position(|&x| x == u).unwrap();
    for &u in &order {
        for &d in g.deps(u) {
            if order.contains(&d) {
                assert!(pos(d) < pos(u));
            }
        }
    }
}

#[test]
fn relative_source_joined_with_working_directory() {
    let mut record = inv("rustc", &["--crate-name", "x", "src/lib.rs"], &[]);
    record.cwd = Some("/work/crate_x".to_string());
    let raw = RawPlan { invocations: vec![record] };
    let g = BuildGraph::try_from_raw(raw).unwrap();
    assert_eq!(
        dirty_paths(&g, "/work/crate_x/src/lib.rs"),
        vec!["/work/crate_x/src/lib.rs"],
    );
}

#[test]
fn compiler_found_by_last_path_component() {
    // The program may name the compiler through a full path.
    let raw = RawPlan {
        invocations: vec![inv(
            "/usr/local/bin/rustc",
            &["--crate-name", "x", "/w/src/lib.rs"],
            &[],
        )],
    };
    let g = BuildGraph::try_from_raw(raw).unwrap();
    assert_eq!(dirty_paths(&g, "/w/src/other.rs"), vec!["/w/src/lib.rs"]);
}

#[test]
fn non_compiler_invocation_has_no_source_path() {
    let raw = RawPlan {
        invocations: vec![inv("cc", &["-c", "/w/shim.c"], &[])],
    };
    let g = BuildGraph::try_from_raw(raw).unwrap();
    assert!(g.unit_at(0).unwrap().src_path.is_none());
    let files = vec![path("/w/shim.c")];
    assert!(g.dirties(&files).is_empty());
}

#[test]
fn plan_reconstructed_from_compiler_report() {
    let report = vec![
        CrateAnalysis {
            disambiguator: (1, 1),
            external_crates: Vec::new(),
            directory: "/w/dep".to_string(),
            program: "rustc".to_string(),
            arguments: vec![
                "--crate-name".to_string(),
                "dep".to_string(),
                "/w/dep/src/lib.rs".to_string(),
            ],
            output: "/t/libdep.rlib".to_string(),
        },
        CrateAnalysis {
            disambiguator: (2, 2),
            // (9, 9) was never reported (an external library): no edge.
            external_crates: vec![(1, 1), (9, 9)],
            directory: "main_crate".to_string(),
            program: "rustc".to_string(),
            arguments: vec![
                "--crate-name".to_string(),
                "main_crate".to_string(),
                "src/main.rs".to_string(),
            ],
            output: "/t/main_crate".to_string(),
        },
    ];
    let g = BuildGraph::plan_from_analysis(&report, &path("/w")).unwrap();
    assert_eq!(g.unit_count(), 2);
    // The relative working directory was made absolute against /w, so the
    // relative source argument resolves under it.
    assert_eq!(
        dirty_paths(&g, "/w/main_crate/src/other.rs"),
        vec!["/w/main_crate/src/main.rs"],
    );
    // The dependency edge from the report orders the rebuild.
    let files = vec![path("/w/dep/src/touched.rs")];
    let closure = g.dirties_transitive(&files);
    let order = g.topological_sort(&closure);
    let ordered: Vec<String> = order
        .iter()
        .filter_map(|&i| g.unit_at(i).unwrap().src_path.as_ref().map(path_text))
        .collect();
    assert_eq!(ordered, vec!["/w/dep/src/lib.rs", "/w/main_crate/src/main.rs"]);
}
