use dep_graph_analyzer::common::{DepHash, PackageIndex};
use dep_graph_analyzer::dep_analyzer::{find_needed, unneeded_names};
use dep_graph_analyzer::model::{find_package, Dependency, InstallReason, MissingDependency, PackageInfo};

/// The name hash that the package database computes (sdbm).
fn name_hash(name: &str) -> u64 {
    let mut hash: u64 = 0;
    for b in name.bytes() {
        hash = (b as u64)
            .wrapping_add(hash << 6)
            .wrapping_add(hash << 16)
            .wrapping_sub(hash);
    }
    hash
}

fn dep(name: &str) -> Dependency {
    Dependency { name: name.to_string(), name_hash: DepHash(name_hash(name)) }
}

fn pkg(name: &str, explicit: bool, depends: &[&str], optdepends: &[&str], provides: &[&str]) -> PackageInfo {
    PackageInfo {
        name: name.to_string(),
        reason: if explicit { InstallReason::Explicit } else { InstallReason::Depend },
        depends: depends.iter().map(|d| dep(d)).collect(),
        optdepends: optdepends.iter().map(|d| dep(d)).collect(),
        provides: provides.iter().map(|d| dep(d)).collect(),
    }
}

#[test]
fn empty_system_needs_nothing() {
    let packages: Vec<PackageInfo> = Vec::new();
    assert_eq!(find_needed(&packages), Ok(vec![]));
    assert_eq!(unneeded_names(&packages), Ok(Vec::<String>::new()));
}

#[test]
fn explicit_packages_are_needed() {
    let packages = vec![pkg("a", true, &[], &[], &[]), pkg("b", false, &[], &[], &[])];
    assert_eq!(find_needed(&packages), Ok(vec![true, false]));
    assert_eq!(unneeded_names(&packages), Ok(vec!["b".to_string()]));
}

#[test]
fn dependencies_of_needed_packages_are_needed() {
    let packages = vec![
        pkg("app", true, &["lib"], &[], &[]),
        pkg("lib", false, &["base"], &[], &[]),
        pkg("base", false, &[], &[], &[]),
        pkg("orphan", false, &["base"], &[], &[]),
    ];
    assert_eq!(find_needed(&packages), Ok(vec![true, true, true, false]));
    assert_eq!(unneeded_names(&packages), Ok(vec!["orphan".to_string()]));
}

#[test]
fn optional_dependencies_count_as_dependencies() {
    let packages = vec![
        pkg("editor", true, &[], &["spell"], &[]),
        pkg("spell", false, &[], &[], &[]),
        pkg("unused", false, &[], &[], &[]),
    ];
    assert_eq!(find_needed(&packages), Ok(vec![true, true, false]));
}

#[test]
fn missing_optional_dependency_is_ignored() {
    let packages = vec![pkg("editor", true, &[], &["not-installed"], &[])];
    assert_eq!(find_needed(&packages), Ok(vec![true]));
}

#[test]
fn unneeded_circular_dependencies_are_found() {
    let packages = vec![
        pkg("x", false, &["y"], &[], &[]),
        pkg("y", false, &["x"], &[], &[]),
        pkg("z", true, &[], &[], &[]),
    ];
    assert_eq!(find_needed(&packages), Ok(vec![false, false, true]));
    assert_eq!(unneeded_names(&packages), Ok(vec!["x".to_string(), "y".to_string()]));
}

#[test]
fn needed_circular_dependencies_are_kept() {
    let packages = vec![
        pkg("x", false, &["y"], &[], &[]),
        pkg("y", false, &["x"], &[], &[]),
        pkg("root", true, &["y"], &[], &[]),
    ];
    assert_eq!(find_needed(&packages), Ok(vec![true, true, true]));
}

#[test]
fn all_providers_of_a_needed_virtual_package_are_needed() {
    let packages = vec![
        pkg("game", true, &["vulkan-driver"], &[], &[]),
        pkg("vulkan-intel", false, &[], &[], &["vulkan-driver"]),
        pkg("nvidia-utils", false, &[], &[], &["vulkan-driver", "opengl-driver"]),
        pkg("mesa", false, &[], &[], &["opengl-driver"]),
    ];
    assert_eq!(find_needed(&packages), Ok(vec![true, true, true, false]));
    assert_eq!(unneeded_names(&packages), Ok(vec!["mesa".to_string()]));
}

#[test]
fn real_package_wins_over_providers() {
    let packages = vec![
        pkg("app", true, &["sh"], &[], &[]),
        pkg("sh", false, &[], &[], &[]),
        pkg("dash", false, &[], &[], &["sh"]),
    ];
    assert_eq!(find_needed(&packages), Ok(vec![true, true, false]));
}

#[test]
fn optional_virtual_dependency_uses_providers() {
    let packages = vec![
        pkg("player", true, &[], &["audio-backend"], &[]),
        pkg("pulse", false, &[], &[], &["audio-backend"]),
    ];
    assert_eq!(find_needed(&packages), Ok(vec![true, true]));
}

#[test]
fn missing_hard_dependency_of_needed_package_is_an_error() {
    let packages = vec![
        pkg("ok", true, &[], &[], &[]),
        pkg("broken", true, &["base", "ghost"], &[], &[]),
        pkg("base", false, &[], &[], &[]),
    ];
    assert_eq!(
        find_needed(&packages),
        Err(MissingDependency { package: PackageIndex(1), dependency: 1 })
    );
    assert_eq!(
        unneeded_names(&packages),
        Err(MissingDependency { package: PackageIndex(1), dependency: 1 })
    );
}

#[test]
fn missing_hard_dependency_of_unneeded_package_is_no_error() {
    let packages = vec![
        pkg("ok", true, &[], &[], &[]),
        pkg("leftover", false, &["ghost"], &[], &[]),
    ];
    assert_eq!(find_needed(&packages), Ok(vec![true, false]));
}

#[test]
fn shared_dependency_name_resolves_each_time() {
    // Two packages require the same library; the second lookup goes through the cache.
    let packages = vec![
        pkg("a", true, &["libfoo"], &[], &[]),
        pkg("b", true, &["libfoo"], &[], &[]),
        pkg("libfoo", false, &[], &[], &[]),
        pkg("libbar", false, &[], &[], &[]),
    ];
    assert_eq!(find_needed(&packages), Ok(vec![true, true, true, false]));
}

#[test]
fn colliding_name_hashes_do_not_confuse_the_lookup() {
    let colliding = |name: &str| Dependency { name: name.to_string(), name_hash: DepHash(7) };
    let mut a = pkg("a", true, &[], &[], &[]);
    a.depends = vec![colliding("one"), colliding("two")];
    let packages = vec![
        a,
        pkg("one", false, &[], &[], &[]),
        pkg("two", false, &[], &[], &[]),
        pkg("three", false, &[], &[], &[]),
    ];
    assert_eq!(find_needed(&packages), Ok(vec![true, true, true, false]));
}

#[test]
fn find_package_takes_the_first_of_that_name() {
    let packages = vec![
        pkg("a", true, &[], &[], &[]),
        pkg("b", false, &[], &[], &[]),
        pkg("b", false, &[], &[], &[]),
    ];
    assert_eq!(find_package(&packages, &"b".to_string()), Some(PackageIndex(1)));
    assert_eq!(find_package(&packages, &"a".to_string()), Some(PackageIndex(0)));
    assert_eq!(find_package(&packages, &"c".to_string()), None);
}

#[test]
fn explicit_package_required_by_another_is_visited_once() {
    let packages = vec![
        pkg("a", true, &["b"], &[], &[]),
        pkg("b", true, &["c"], &[], &[]),
        pkg("c", false, &["a"], &[], &[]),
    ];
    assert_eq!(find_needed(&packages), Ok(vec![true, true, true]));
}

use dep_graph_analyzer::dep_analyzer::{duplicate_provisions, DuplicateProvision};

#[test]
fn single_providers_give_no_duplicate_report() {
    let packages = vec![
        pkg("a", true, &[], &[], &["x"]),
        pkg("b", false, &[], &[], &["y", "z"]),
    ];
    assert_eq!(duplicate_provisions(&packages), Vec::<DuplicateProvision>::new());
}

#[test]
fn second_provider_of_a_name_is_reported() {
    let packages = vec![
        pkg("vulkan-intel", false, &[], &[], &["vulkan-driver"]),
        pkg("other", false, &[], &[], &["sh"]),
        pkg("nvidia-utils", false, &[], &[], &["opengl-driver", "vulkan-driver"]),
        pkg("amdvlk", false, &[], &[], &["vulkan-driver"]),
        pkg("mesa", false, &[], &[], &["opengl-driver"]),
    ];
    assert_eq!(
        duplicate_provisions(&packages),
        vec![
            DuplicateProvision { package: PackageIndex(2), provided: 1, first_provider: PackageIndex(0) },
            DuplicateProvision { package: PackageIndex(3), provided: 0, first_provider: PackageIndex(0) },
            DuplicateProvision { package: PackageIndex(4), provided: 0, first_provider: PackageIndex(2) },
        ]
    );
}

#[test]
fn repeated_provision_within_one_package_is_reported() {
    let packages = vec![pkg("a", false, &[], &[], &["x", "x"])];
    assert_eq!(
        duplicate_provisions(&packages),
        vec![DuplicateProvision { package: PackageIndex(0), provided: 1, first_provider: PackageIndex(0) }]
    );
}

#[test]
fn cache_hit_and_collision_in_one_package() {
    // Three dependencies of one package share a name hash; the second
    // replaces the cached entry and the third names the first again.
    let colliding = |name: &str| Dependency { name: name.to_string(), name_hash: DepHash(11) };
    let mut a = pkg("a", true, &[], &[], &[]);
    a.depends = vec![colliding("one"), colliding("two"), colliding("one")];
    let packages = vec![a, pkg("one", false, &[], &[], &[]), pkg("two", false, &[], &[], &[])];
    assert_eq!(find_needed(&packages), Ok(vec![true, true, true]));
}
