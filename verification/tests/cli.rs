//! The coordinator: target selection for each crate filter, the prior
//! compiler-flag pass-through, and the environment patch.

use rustc_plugin::args::ArgsValue;
use rustc_plugin::cli::build_environment;
use rustc_plugin::cli::prior_rustflags;
use rustc_plugin::cli::select_targets;
use rustc_plugin::cli::Package;
use rustc_plugin::cli::SelectError;
use rustc_plugin::cli::Target;
use rustc_plugin::cli::TargetSelection;
use rustc_plugin::plugin::CrateFilter;

fn target(name: &str, kind: &str, src_path: &str) -> Target {
    Target {
        name: String::from(name),
        kind: vec![String::from(kind)],
        src_path: String::from(src_path),
    }
}

fn package(name: &str, version: &str, targets: Vec<Target>) -> Package {
    Package { name: String::from(name), version: String::from(version), targets }
}

#[test]
fn broad_filters_build_everything() {
    let pkgs = vec![package("a", "1.0.0", vec![target("a", "lib", "/ws/a/src/lib.rs")])];
    assert_eq!(
        select_targets(&CrateFilter::AllCrates, &pkgs),
        Ok(TargetSelection::All { all_crates: true })
    );
    assert_eq!(
        select_targets(&CrateFilter::OnlyWorkspace, &pkgs),
        Ok(TargetSelection::All { all_crates: false })
    );
}

#[test]
fn single_owning_target_is_found() {
    let pkgs = vec![
        package("other", "1.0.0", vec![target("other", "lib", "/ws/other/src/lib.rs")]),
        package("mine", "0.2.0", vec![target("mine", "lib", "/ws/mine/src/lib.rs")]),
    ];
    let filter = CrateFilter::CrateContainingFile(String::from("/ws/mine/src/util.rs"));
    assert_eq!(
        select_targets(&filter, &pkgs),
        Ok(TargetSelection::File { package: 1, target: 0 })
    );
}

#[test]
fn stem_match_disambiguates_shared_root() {
    // Two example targets share one directory; the file stem picks one.
    let pkgs = vec![package(
        "ex",
        "1.0.0",
        vec![
            target("first", "example", "/ws/ex/examples/first.rs"),
            target("second", "example", "/ws/ex/examples/second.rs"),
        ],
    )];
    let filter = CrateFilter::CrateContainingFile(String::from("/ws/ex/examples/second.rs"));
    assert_eq!(
        select_targets(&filter, &pkgs),
        Ok(TargetSelection::File { package: 0, target: 1 })
    );
}

#[test]
fn main_stem_prefers_binary() {
    let pkgs = vec![package(
        "app",
        "1.0.0",
        vec![
            target("app", "lib", "/ws/app/src/lib.rs"),
            target("app", "bin", "/ws/app/src/main.rs"),
        ],
    )];
    let filter = CrateFilter::CrateContainingFile(String::from("/ws/app/src/main.rs"));
    assert_eq!(
        select_targets(&filter, &pkgs),
        Ok(TargetSelection::File { package: 0, target: 1 })
    );
}

#[test]
fn other_stem_prefers_library() {
    let pkgs = vec![package(
        "app",
        "1.0.0",
        vec![
            target("app", "lib", "/ws/app/src/lib.rs"),
            target("runner", "bin", "/ws/app/src/runner.rs"),
        ],
    )];
    let filter = CrateFilter::CrateContainingFile(String::from("/ws/app/src/helper.rs"));
    assert_eq!(
        select_targets(&filter, &pkgs),
        Ok(TargetSelection::File { package: 0, target: 0 })
    );
}

#[test]
fn all_binaries_prefer_first_binary() {
    let pkgs = vec![package(
        "tools",
        "1.0.0",
        vec![
            target("one", "bin", "/ws/tools/src/one.rs"),
            target("two", "bin", "/ws/tools/src/two.rs"),
        ],
    )];
    let filter = CrateFilter::CrateContainingFile(String::from("/ws/tools/src/shared.rs"));
    assert_eq!(
        select_targets(&filter, &pkgs),
        Ok(TargetSelection::File { package: 0, target: 0 })
    );
}

#[test]
fn no_owner_reports_the_path() {
    let pkgs = vec![package("a", "1.0.0", vec![target("a", "lib", "/ws/a/src/lib.rs")])];
    let filter = CrateFilter::CrateContainingFile(String::from("/elsewhere/file.rs"));
    assert_eq!(
        select_targets(&filter, &pkgs),
        Err(SelectError::NoMatchingTarget(String::from("/elsewhere/file.rs")))
    );
}

#[test]
fn two_owning_packages_are_ambiguous() {
    let pkgs = vec![
        package("a", "1.0.0", vec![target("a", "lib", "/ws/src/lib.rs")]),
        package("b", "1.0.0", vec![target("b", "lib", "/ws/src/lib.rs")]),
    ];
    let filter = CrateFilter::CrateContainingFile(String::from("/ws/src/other.rs"));
    assert_eq!(select_targets(&filter, &pkgs), Err(SelectError::AmbiguousTarget));
}

#[test]
fn rustflags_test() {
    assert_eq!(
        prior_rustflags(None, Some(String::from("space double_space  tab\ttab end"))),
        vec![
            String::from("space"),
            String::from("double_space"),
            String::from("tab"),
            String::from("tab"),
            String::from("end")
        ],
        "whitespace works"
    );
    assert_eq!(
        prior_rustflags(
            Some(String::from("override")),
            Some(String::from("space double_space  tab  end"))
        ),
        vec![String::from("override")]
    );
    assert_eq!(prior_rustflags(None, None), Vec::<String>::new());
}

#[test]
fn encoded_rustflags_keep_empty_pieces() {
    let flags = prior_rustflags(Some(String::from("a\u{1f}\u{1f}b")), None);
    assert_eq!(flags, vec![String::from("a"), String::from(""), String::from("b")]);
}

#[test]
fn environment_patch_for_the_whole_workspace() {
    let pkgs = vec![package("a", "1.0.0", vec![target("a", "lib", "/ws/a/src/lib.rs")])];
    let patch = build_environment(
        &ArgsValue::Flag(true),
        &TargetSelection::All { all_crates: true },
        &pkgs,
        "/bin/driver",
        "/ws/target/plugin",
        &vec![String::from("-C"), String::from("debuginfo=0")],
    );
    assert_eq!(
        patch.cargo_args,
        vec![
            String::from("check"),
            String::from("-vv"),
            String::from("--target-dir"),
            String::from("/ws/target/plugin"),
            String::from("--all")
        ]
    );
    assert_eq!(
        patch.env,
        vec![
            (String::from("RUSTC_WRAPPER"), String::from("/bin/driver")),
            (String::from("CARGO_ENCODED_RUSTFLAGS"), String::from("-C\u{1f}debuginfo=0")),
            (String::from("RUSTC_PLUGIN_ALL_TARGETS"), String::from("")),
            (String::from("PLUGIN_ARGS"), String::from("t")),
        ]
    );
    assert_eq!(patch.stale_artifact_prefix, None);
}

#[test]
fn environment_patch_for_a_library_target() {
    let pkgs = vec![package(
        "my-crate",
        "0.3.1",
        vec![target("my_crate", "lib", "/ws/my-crate/src/lib.rs")],
    )];
    let patch = build_environment(
        &ArgsValue::Flag(false),
        &TargetSelection::File { package: 0, target: 0 },
        &pkgs,
        "/bin/driver",
        "/ws/target/plugin",
        &Vec::new(),
    );
    assert_eq!(
        patch.cargo_args,
        vec![
            String::from("check"),
            String::from("-vv"),
            String::from("--target-dir"),
            String::from("/ws/target/plugin"),
            String::from("-p"),
            String::from("my-crate:0.3.1"),
            String::from("--lib")
        ]
    );
    assert_eq!(
        patch.env,
        vec![
            (String::from("RUSTC_WRAPPER"), String::from("/bin/driver")),
            (String::from("CARGO_ENCODED_RUSTFLAGS"), String::from("")),
            (String::from("SPECIFIC_CRATE"), String::from("my_crate")),
            (String::from("SPECIFIC_TARGET"), String::from("lib")),
            (String::from("PLUGIN_ARGS"), String::from("f")),
        ]
    );
    assert_eq!(patch.stale_artifact_prefix, Some(String::from("libmy_crate")));
}

#[test]
fn environment_patch_for_a_binary_target() {
    let pkgs = vec![package(
        "tool",
        "1.0.0",
        vec![target("tool", "bin", "/ws/tool/src/main.rs")],
    )];
    let patch = build_environment(
        &ArgsValue::Flag(false),
        &TargetSelection::File { package: 0, target: 0 },
        &pkgs,
        "/bin/driver",
        "/t",
        &Vec::new(),
    );
    assert_eq!(
        patch.cargo_args,
        vec![
            String::from("check"),
            String::from("-vv"),
            String::from("--target-dir"),
            String::from("/t"),
            String::from("-p"),
            String::from("tool:1.0.0"),
            String::from("--bin"),
            String::from("tool")
        ]
    );
    assert_eq!(patch.stale_artifact_prefix, None);
}
