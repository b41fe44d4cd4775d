//! Versions, shadowed copies and releases.

use taska::version::{
    bin_path, claimed_version, fmt_ver, no_asset, no_prebuilt, parse_version, release_target,
    shadow_recommendation, shell_quote, update_between, update_line, update_step, ShadowEntry,
    UpdateStep,
};

#[test]
fn parse_version_reads_clap_output() {
    assert_eq!(parse_version("ta 0.5.0"), Some((0, 5, 0)));
    assert_eq!(parse_version("ta 1.2.3-rc.1"), Some((1, 2, 3)));
    assert_eq!(parse_version("0.6\n"), Some((0, 6, 0)));
    assert_eq!(parse_version("ta unknown"), None);
}

#[test]
fn shadow_recommendation_flags_a_stale_running_copy() {
    let e = |p: &str, v: Option<(u64, u64, u64)>, r: bool| ShadowEntry {
        display: p.to_string(),
        version: v,
        running: r,
    };
    // The running 0.5.0 shadows a newer 0.6.0 sibling.
    let out = shadow_recommendation(&vec![
        e("/a/ta", Some((0, 5, 0)), true),
        e("/b/ta", Some((0, 6, 0)), false),
    ]);
    assert!(out.contains("0.5.0") && out.contains("/a/ta") && out.contains("<- running"));
    assert!(out.contains("0.6.0") && out.contains("(newest)"));
    assert!(out.contains("NOT the newest"), "{out}");
    // Recommends removing ONLY the stale one, keeping the newest.
    assert!(out.contains("rm '/a/ta'") && !out.contains("'/b/ta'"), "{out}");
}

#[test]
fn release_target_matches_the_shipped_assets() {
    let shipped = [
        "x86_64-unknown-linux-musl",
        "x86_64-apple-darwin",
        "aarch64-apple-darwin",
    ];
    for os in ["linux", "macos", "windows"] {
        for arch in ["x86_64", "aarch64", "riscv64"] {
            if let Some(t) = release_target(os, arch) {
                assert!(shipped.contains(&t), "unshipped target {t}");
            }
        }
    }
    assert_eq!(release_target("linux", "x86_64"), Some("x86_64-unknown-linux-musl"));
    assert_eq!(release_target("windows", "x86_64"), None);
    assert!(no_prebuilt("windows", "x86_64").contains("windows"));
}

#[test]
fn bin_path_is_derived_from_the_asset_name() {
    let asset = "ta-v1.0.0-x86_64-unknown-linux-musl.tar.gz";
    assert_eq!(bin_path(asset), "ta-v1.0.0-x86_64-unknown-linux-musl/ta");
    assert_eq!(bin_path("plain"), "plain/ta");
}

#[test]
fn versions_and_paths_are_spelled() {
    assert_eq!(fmt_ver((1, 20, 3)), "1.20.3");
    assert_eq!(parse_version(&fmt_ver((1, 20, 3))), Some((1, 20, 3)));
    assert_eq!(shell_quote("/a b/ta"), "'/a b/ta'");
    assert_eq!(shell_quote("it's"), r"'it'\''s'");
}

#[test]
fn an_update_is_checked_or_installed() {
    assert_eq!(update_step(true, true, true), UpdateStep::UpToDate);
    assert_eq!(update_step(true, false, false), UpdateStep::Available);
    assert_eq!(update_step(false, false, true), UpdateStep::AlreadyCurrent);
    assert_eq!(update_step(false, true, true), UpdateStep::Install);
    assert_eq!(update_step(false, false, false), UpdateStep::Install);
}

#[test]
fn updates_are_announced() {
    let line = |step: UpdateStep| update_line(step, "1.0.0", "1.1.0");
    assert_eq!(line(UpdateStep::UpToDate), "up to date - 1.1.0 is the latest release");
    assert_eq!(
        line(UpdateStep::Available),
        "update available: 1.0.0 -> 1.1.0 (run `ta self-update`)"
    );
    assert_eq!(
        line(UpdateStep::AlreadyCurrent),
        "already up to date (1.0.0); use --force to reinstall"
    );
    assert_eq!(line(UpdateStep::Install), "updating 1.0.0 -> 1.1.0 ...");
    assert!(no_asset("1.1.0", "x86_64-apple-darwin").contains("(v1.1.0) ships no asset"));
}

#[test]
fn an_update_goes_by_the_order_of_releases() {
    let step = |check: bool, force: bool, current: &str, latest: &str| {
        update_between(check, force, current, latest).unwrap()
    };
    let same = |a: UpdateStep, b: UpdateStep| {
        assert_eq!(update_line(a, "1", "2"), update_line(b, "1", "2"));
    };
    // Ten comes after nine, and nothing comes after itself.
    same(step(false, false, "0.9.0", "0.10.0"), update_step(false, false, false));
    same(step(false, false, "0.10.0", "0.10.0"), update_step(false, false, true));
    same(step(false, false, "0.10.0", "0.9.9"), update_step(false, false, true));
    same(step(true, false, "0.9.0", "1.0.0"), update_step(true, false, false));
    same(step(false, true, "1.0.0", "1.0.0"), update_step(false, true, true));
    assert!(update_between(false, false, "0.9.0", "soon").is_err());
    assert!(update_between(false, false, "x", "0.9.0").is_err());
    assert_eq!(claimed_version(true, "1.2.3"), "0.0.0");
    assert_eq!(claimed_version(false, "1.2.3"), "1.2.3");
}
