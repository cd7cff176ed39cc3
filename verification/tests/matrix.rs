use dep_graph_analyzer::common::{DepHash, PackageIndex};
use dep_graph_analyzer::dep_analyzer::find_needed;
use dep_graph_analyzer::dep_matrix::DepMatrix;
use dep_graph_analyzer::model::{Dependency, InstallReason, MissingDependency, PackageInfo};

fn name_hash(name: &str) -> u64 {
    let mut hash: u64 = 0;
    for b in name.bytes() {
        hash = (b as u64)
            .wrapping_add(hash << 6)
            .wrapping_add(hash << 16)
            .wrapping_sub(hash);
    }
    hash
}

fn dep(name: &str) -> Dependency {
    Dependency { name: name.to_string(), name_hash: DepHash(name_hash(name)) }
}

fn pkg(name: &str, explicit: bool, depends: &[&str], optdepends: &[&str], provides: &[&str]) -> PackageInfo {
    PackageInfo {
        name: name.to_string(),
        reason: if explicit { InstallReason::Explicit } else { InstallReason::Depend },
        depends: depends.iter().map(|d| dep(d)).collect(),
        optdepends: optdepends.iter().map(|d| dep(d)).collect(),
        provides: provides.iter().map(|d| dep(d)).collect(),
    }
}

fn sample() -> Vec<PackageInfo> {
    vec![
        pkg("game", true, &["vulkan-driver", "lib"], &["extras"], &[]),
        pkg("lib", false, &["sh"], &[], &[]),
        pkg("vulkan-intel", false, &[], &[], &["vulkan-driver"]),
        pkg("nvidia-utils", false, &[], &[], &["vulkan-driver"]),
        pkg("sh", false, &[], &[], &[]),
        pkg("dash", false, &[], &[], &["sh"]),
        pkg("x", false, &["y"], &[], &[]),
        pkg("y", false, &["x"], &["not-installed"], &[]),
    ]
}

#[test]
fn matrix_rows_hold_the_dependencies() {
    let m = DepMatrix::from_alpm_packages(sample()).ok().unwrap();
    let text = String::from_utf8(m.export_text()).unwrap();
    let expected = "\
0 1 1 1 0 0 0 0 \n\
0 0 0 0 1 0 0 0 \n\
0 0 0 0 0 0 0 0 \n\
0 0 0 0 0 0 0 0 \n\
0 0 0 0 0 0 0 0 \n\
0 0 0 0 0 0 0 0 \n\
0 0 0 0 0 0 0 1 \n\
0 0 0 0 0 0 1 0 \n";
    assert_eq!(text, expected);
}

#[test]
fn count_edges_counts_set_flags() {
    let m = DepMatrix::from_alpm_packages(sample()).ok().unwrap();
    assert_eq!(m.count_edges(), 6);
}

#[test]
fn total_size_is_side_squared() {
    let m = DepMatrix::from_alpm_packages(sample()).ok().unwrap();
    assert_eq!(m.total_size(), 64);
    let empty = DepMatrix::from_alpm_packages(Vec::new()).ok().unwrap();
    assert_eq!(empty.total_size(), 0);
    assert_eq!(empty.count_edges(), 0);
    assert_eq!(empty.export_text(), Vec::<u8>::new());
}

#[test]
fn compute_needed_marks_reachable_packages() {
    let m = DepMatrix::from_alpm_packages(sample()).ok().unwrap();
    assert_eq!(m.compute_needed(), vec![true, true, true, true, true, false, false, false]);
}

#[test]
fn unneeded_names_lists_the_rest_in_order() {
    let m = DepMatrix::from_alpm_packages(sample()).ok().unwrap();
    assert_eq!(m.unneeded_names(), vec!["dash".to_string(), "x".to_string(), "y".to_string()]);
}

#[test]
fn matrix_and_search_agree() {
    let packages = sample();
    let by_search = find_needed(&packages).unwrap();
    let m = DepMatrix::from_alpm_packages(packages).ok().unwrap();
    assert_eq!(m.compute_needed(), by_search);
}

#[test]
fn missing_hard_dependency_anywhere_is_an_error() {
    // Unlike the search, the matrix resolves the dependencies of every package.
    let packages = vec![
        pkg("ok", true, &[], &[], &[]),
        pkg("leftover", false, &["base", "ghost", "gone"], &[], &[]),
        pkg("base", false, &[], &[], &[]),
    ];
    let result = DepMatrix::from_alpm_packages(packages);
    assert_eq!(result.err(), Some(MissingDependency { package: PackageIndex(1), dependency: 1 }));
}

#[test]
fn self_dependency_sets_the_diagonal() {
    let packages = vec![pkg("loop", false, &["loop"], &[], &[])];
    let m = DepMatrix::from_alpm_packages(packages).ok().unwrap();
    assert_eq!(String::from_utf8(m.export_text()).unwrap(), "1 \n");
    assert_eq!(m.count_edges(), 1);
    assert_eq!(m.compute_needed(), vec![false]);
}

#[test]
fn explicit_packages_are_needed_in_the_matrix() {
    let packages = vec![pkg("a", true, &[], &[], &[]), pkg("b", false, &[], &[], &[])];
    let m = DepMatrix::from_alpm_packages(packages).ok().unwrap();
    assert_eq!(m.compute_needed(), vec![true, false]);
    assert_eq!(m.unneeded_names(), vec!["b".to_string()]);
}

#[test]
fn exported_text_has_one_line_per_row_and_counts_match() {
    let m = DepMatrix::from_alpm_packages(sample()).ok().unwrap();
    let text = String::from_utf8(m.export_text()).unwrap();
    assert_eq!(text.lines().count(), 8);
    for line in text.lines() {
        let tokens: Vec<&str> = line.split_whitespace().collect();
        assert_eq!(tokens.len(), 8);
        assert!(tokens.iter().all(|t| *t == "0" || *t == "1"));
    }
    let ones = text.split_whitespace().filter(|t| *t == "1").count();
    assert_eq!(ones, m.count_edges());
    assert_eq!(text.len(), 8 * (2 * 8 + 1));
}

#[test]
fn more_edges_never_make_a_package_unneeded() {
    let fewer = vec![
        pkg("a", true, &["b"], &[], &[]),
        pkg("b", false, &[], &[], &[]),
        pkg("c", false, &[], &[], &[]),
    ];
    let more = vec![
        pkg("a", true, &["b"], &[], &[]),
        pkg("b", false, &["c"], &[], &[]),
        pkg("c", false, &[], &[], &[]),
    ];
    let n1 = DepMatrix::from_alpm_packages(fewer).ok().unwrap().compute_needed();
    let n2 = DepMatrix::from_alpm_packages(more).ok().unwrap().compute_needed();
    assert_eq!(n1, vec![true, true, false]);
    assert_eq!(n2, vec![true, true, true]);
    assert!(n1.iter().zip(n2.iter()).all(|(x, y)| !*x || *y));
}
