//! The installed packages as plain values, and what it means for one
//! package to depend on another and for a package to be needed.
//!
//! A dependency is satisfied by the installed package of the same name,
//! when there is one (the first such package in the list, as a lookup in
//! the local database finds exactly one). Otherwise it is satisfied by
//! every package that provides a virtual package whose name hash is the
//! dependency's name hash. Optional dependencies count as dependencies.

use vstd::prelude::*;
use crate::common::{DepHash, PackageIndex};
use crate::graph::{reachable, lemma_root_reachable, lemma_step_reachable, lemma_reachable_in_closed_set, lemma_reachable_has_reason};

verus! {

/// Why a package is installed.
#[derive(Clone, Copy, Debug)]
pub enum InstallReason {
    /// The user asked for it.
    Explicit,
    /// It was pulled in as a dependency of another package.
    Depend,
}

/// A dependency, an optional dependency or a provided virtual package.
pub struct Dependency {
    /// The name of the required (or provided) package.
    pub name: String,
    /// The hash of that name, as the package database computed it.
    pub name_hash: DepHash,
}

/// An installed package.
pub struct PackageInfo {
    pub name: String,
    pub reason: InstallReason,
    pub depends: Vec<Dependency>,
    pub optdepends: Vec<Dependency>,
    pub provides: Vec<Dependency>,
}

/// A hard dependency that no installed package satisfies: the
/// `dependency`-th entry of the `depends` list of the package at `package`.
#[derive(Clone, Copy, Debug, PartialEq, Eq)]
pub struct MissingDependency {
    pub package: PackageIndex,
    pub dependency: usize,
}

pub open spec fn is_explicit(p: PackageInfo) -> bool {
    p.reason is Explicit
}

/// The package at `j` is called `name`.
pub open spec fn is_named(pkgs: Seq<PackageInfo>, name: Seq<char>, j: int) -> bool {
    0 <= j < pkgs.len() && pkgs[j].name@ == name
}

/// The package at `j` is the first one called `name`.
pub open spec fn is_first_named(pkgs: Seq<PackageInfo>, name: Seq<char>, j: int) -> bool {
    &&& is_named(pkgs, name, j)
    &&& forall|k: int| 0 <= k < j ==> pkgs[k].name@ != name
}

/// Some installed package is called `name`.
pub open spec fn has_named(pkgs: Seq<PackageInfo>, name: Seq<char>) -> bool {
    exists|j: int| #[trigger] is_named(pkgs, name, j)
}

/// The package at `v` provides a virtual package whose name hash is `h`.
pub open spec fn is_provider(pkgs: Seq<PackageInfo>, h: u64, v: int) -> bool {
    &&& 0 <= v < pkgs.len()
    &&& exists|k: int| 0 <= k < pkgs[v].provides.len() && #[trigger] pkgs[v].provides@[k].name_hash.0 == h
}

/// The package at `v` satisfies the dependency `d`.
pub open spec fn resolves_to(pkgs: Seq<PackageInfo>, d: Dependency, v: int) -> bool {
    if has_named(pkgs, d.name@) {
        is_first_named(pkgs, d.name@, v)
    } else {
        is_provider(pkgs, d.name_hash.0, v)
    }
}

/// Some installed package satisfies the dependency `d`.
pub open spec fn is_resolvable(pkgs: Seq<PackageInfo>, d: Dependency) -> bool {
    has_named(pkgs, d.name@) || exists|v: int| #[trigger] is_provider(pkgs, d.name_hash.0, v)
}

/// Every hard dependency of the package at `u` is satisfied.
pub open spec fn hard_deps_resolvable(pkgs: Seq<PackageInfo>, u: int) -> bool {
    forall|k: int| 0 <= k < pkgs[u].depends.len() ==> #[trigger] is_resolvable(pkgs, pkgs[u].depends@[k])
}

/// The package at `u` requires the package at `v`, by a hard or an optional dependency.
pub open spec fn depends_on(pkgs: Seq<PackageInfo>, u: int, v: int) -> bool {
    &&& 0 <= u < pkgs.len()
    &&& {
        ||| exists|k: int| 0 <= k < pkgs[u].depends.len() && #[trigger] resolves_to(pkgs, pkgs[u].depends@[k], v)
        ||| exists|k: int| 0 <= k < pkgs[u].optdepends.len() && #[trigger] resolves_to(pkgs, pkgs[u].optdepends@[k], v)
    }
}

/// The dependency graph of the installed packages.
pub open spec fn dependency_graph(pkgs: Seq<PackageInfo>) -> spec_fn(int, int) -> bool {
    |u: int, v: int| depends_on(pkgs, u, v)
}

/// The explicitly installed packages.
pub open spec fn explicit_packages(pkgs: Seq<PackageInfo>) -> spec_fn(int) -> bool {
    |u: int| 0 <= u < pkgs.len() && is_explicit(pkgs[u])
}

/// The package at `v` is needed: a chain of dependencies leads to it from
/// an explicitly installed package (the chain may be empty).
pub open spec fn needed(pkgs: Seq<PackageInfo>, v: int) -> bool {
    reachable(dependency_graph(pkgs), explicit_packages(pkgs), v)
}

/// The names of the packages among the first `n` for which `keep` is false, in list order.
pub open spec fn names_not_kept(pkgs: Seq<PackageInfo>, keep: spec_fn(int) -> bool, n: int) -> Seq<Seq<char>>
    decreases n,
{
    if n <= 0 {
        Seq::empty()
    } else if keep(n - 1) {
        names_not_kept(pkgs, keep, n - 1)
    } else {
        names_not_kept(pkgs, keep, n - 1).push(pkgs[n - 1].name@)
    }
}

/// The packages before `v` for which `keep` is false.
pub open spec fn left_out_before(keep: spec_fn(int) -> bool, v: int) -> Set<int> {
    Set::new(|w: int| 0 <= w < v && !keep(w))
}

/// Counting the packages left out, one package further.
proof fn lemma_left_out_step(keep: spec_fn(int) -> bool, n: int)
    requires
        0 <= n,
    ensures
        left_out_before(keep, n).finite(),
        left_out_before(keep, n + 1).finite(),
        left_out_before(keep, n + 1).len() == left_out_before(keep, n).len() + if keep(n) { 0nat } else { 1nat },
    decreases n,
{
    if n == 0 {
        assert(left_out_before(keep, 0) =~= Set::<int>::empty());
    } else {
        lemma_left_out_step(keep, n - 1);
    }
    if keep(n) {
        assert(left_out_before(keep, n + 1) =~= left_out_before(keep, n));
    } else {
        assert(left_out_before(keep, n + 1) =~= left_out_before(keep, n).insert(n));
        assert(!left_out_before(keep, n).contains(n));
    }
}

/// The names left out are exactly those of the packages for which `keep`
/// is false, each once and in list order: there are as many names as such
/// packages, and the name of such a package `v` stands at the position
/// given by the number of such packages before `v`.
pub proof fn lemma_names_not_kept_ranks(pkgs: Seq<PackageInfo>, keep: spec_fn(int) -> bool, n: int)
    requires
        0 <= n <= pkgs.len(),
    ensures
        left_out_before(keep, n).finite(),
        names_not_kept(pkgs, keep, n).len() == left_out_before(keep, n).len(),
        forall|v: int| 0 <= v < n && !keep(v) ==> {
            &&& #[trigger] left_out_before(keep, v).len() < names_not_kept(pkgs, keep, n).len()
            &&& names_not_kept(pkgs, keep, n)[left_out_before(keep, v).len() as int] == pkgs[v].name@
        },
    decreases n,
{
    if n == 0 {
        lemma_left_out_step(keep, 0);
        assert(left_out_before(keep, 0) =~= Set::<int>::empty());
    } else {
        lemma_names_not_kept_ranks(pkgs, keep, n - 1);
        lemma_left_out_step(keep, n - 1);
        let before = names_not_kept(pkgs, keep, n - 1);
        let after = names_not_kept(pkgs, keep, n);
        assert forall|v: int| 0 <= v < n && !keep(v) implies {
            &&& #[trigger] left_out_before(keep, v).len() < after.len()
            &&& after[left_out_before(keep, v).len() as int] == pkgs[v].name@
        } by {
            if v < n - 1 {
                assert(left_out_before(keep, v).len() < before.len());
                if !keep(n - 1) {
                    assert(after == before.push(pkgs[n - 1].name@));
                }
            } else {
                assert(after == before.push(pkgs[n - 1].name@));
            }
        }
    }
}

/// The names of the packages that are not needed, in list order.
pub open spec fn unneeded_names_spec(pkgs: Seq<PackageInfo>) -> Seq<Seq<char>> {
    names_not_kept(pkgs, |v: int| needed(pkgs, v), pkgs.len() as int)
}

/// Looks up an installed package by name, as the local database does: the
/// first package in the list with that name.
pub fn find_package(packages: &Vec<PackageInfo>, name: &String) -> (found: Option<PackageIndex>)
    ensures
        match found {
            Some(j) => is_first_named(packages@, name@, j.0 as int),
            None => !has_named(packages@, name@),
        },
{
    let mut j: usize = 0;
    while j < packages.len()
        invariant
            j <= packages@.len(),
            forall|k: int| 0 <= k < j ==> packages@[k].name@ != name@,
        decreases packages@.len() - j,
    {
        if packages[j].name == *name {
            return Some(PackageIndex(j));
        }
        j += 1;
    }
    assert forall|k: int| !#[trigger] is_named(packages@, name@, k) by {}
    None
}

/// Two ways of choosing packages that agree on the first `n` packages
/// leave out the same names.
pub proof fn lemma_names_not_kept_agree(
    pkgs: Seq<PackageInfo>,
    keep1: spec_fn(int) -> bool,
    keep2: spec_fn(int) -> bool,
    n: int,
)
    requires
        forall|v: int| 0 <= v < n ==> #[trigger] keep1(v) == keep2(v),
    ensures
        names_not_kept(pkgs, keep1, n) == names_not_kept(pkgs, keep2, n),
    decreases n,
{
    if n > 0 {
        lemma_names_not_kept_agree(pkgs, keep1, keep2, n - 1);
        assert(keep1(n - 1) == keep2(n - 1));
    }
}

/// The names of the packages whose flag is false, in list order.
pub(crate) fn names_where_unset(packages: &Vec<PackageInfo>, flags: &Vec<bool>) -> (names: Vec<String>)
    requires
        flags@.len() == packages@.len(),
    ensures
        names@.map_values(|s: String| s@) == names_not_kept(packages@, |v: int| flags@[v], packages@.len() as int),
        names@.len() == left_out_before(|v: int| flags@[v], packages@.len() as int).len(),
        forall|v: int| #![trigger packages@[v]] 0 <= v < packages@.len() && !flags@[v] ==> {
            &&& left_out_before(|w: int| flags@[w], v).len() < names@.len()
            &&& names@[left_out_before(|w: int| flags@[w], v).len() as int]@ == packages@[v].name@
        },
{
    let ghost keep = |v: int| flags@[v];
    let mut names: Vec<String> = Vec::new();
    let mut i: usize = 0;
    while i < packages.len()
        invariant
            i <= packages@.len(),
            flags@.len() == packages@.len(),
            keep == (|v: int| flags@[v]),
            names@.map_values(|s: String| s@) == names_not_kept(packages@, keep, i as int),
        decreases packages@.len() - i,
    {
        let ghost before = names@;
        if !flags[i] {
            names.push(packages[i].name.clone());
            assert(names@.map_values(|s: String| s@) =~= before.map_values(|s: String| s@).push(packages@[i as int].name@));
        }
        i += 1;
    }
    proof {
        lemma_names_not_kept_ranks(packages@, keep, packages@.len() as int);
        let shown = names@.map_values(|s: String| s@);
        assert forall|v: int| #![trigger packages@[v]] 0 <= v < packages@.len() && !flags@[v] implies {
            &&& left_out_before(|w: int| flags@[w], v).len() < names@.len()
            &&& names@[left_out_before(|w: int| flags@[w], v).len() as int]@ == packages@[v].name@
        } by {
            assert(left_out_before(|w: int| flags@[w], v) == left_out_before(keep, v));
            assert(!keep(v));
            assert(shown[left_out_before(keep, v).len() as int] == names@[left_out_before(keep, v).len() as int]@);
        }
    }
    names
}

/// An explicitly installed package is needed.
pub proof fn lemma_explicit_is_needed(pkgs: Seq<PackageInfo>, v: int)
    requires
        0 <= v < pkgs.len(),
        is_explicit(pkgs[v]),
    ensures
        needed(pkgs, v),
{
    lemma_root_reachable(dependency_graph(pkgs), explicit_packages(pkgs), v);
}

/// What a needed package requires, by a hard or an optional dependency, is needed.
pub proof fn lemma_requirement_of_needed_is_needed(pkgs: Seq<PackageInfo>, u: int, v: int)
    requires
        needed(pkgs, u),
        depends_on(pkgs, u, v),
    ensures
        needed(pkgs, v),
{
    lemma_step_reachable(dependency_graph(pkgs), explicit_packages(pkgs), u, v);
}

/// A needed package is explicitly installed, or required by a needed package.
pub proof fn lemma_needed_has_reason(pkgs: Seq<PackageInfo>, v: int)
    requires
        needed(pkgs, v),
    ensures
        (0 <= v < pkgs.len() && is_explicit(pkgs[v]))
            || exists|u: int| #[trigger] needed(pkgs, u) && depends_on(pkgs, u, v),
{
    let adj = dependency_graph(pkgs);
    let roots = explicit_packages(pkgs);
    lemma_reachable_has_reason(adj, roots, v);
    if !roots(v) {
        let u = choose|u: int| #[trigger] reachable(adj, roots, u) && adj(u, v);
        assert(needed(pkgs, u) && depends_on(pkgs, u, v));
    }
}

/// The needed packages are the fewest that could be: every set of packages
/// that holds the explicitly installed ones and everything they require
/// holds all the needed packages.
pub proof fn lemma_needed_is_least(pkgs: Seq<PackageInfo>, keep: spec_fn(int) -> bool, v: int)
    requires
        forall|u: int| 0 <= u < pkgs.len() && is_explicit(pkgs[u]) ==> #[trigger] keep(u),
        forall|u: int, w: int| #[trigger] keep(u) && #[trigger] depends_on(pkgs, u, w) ==> keep(w),
        needed(pkgs, v),
    ensures
        keep(v),
{
    let adj = dependency_graph(pkgs);
    let roots = explicit_packages(pkgs);
    assert forall|r: int| #[trigger] roots(r) implies keep(r) by {}
    assert forall|u: int, w: int| #[trigger] keep(u) && #[trigger] adj(u, w) implies keep(w) by {
        assert(depends_on(pkgs, u, w));
    }
    lemma_reachable_in_closed_set(adj, roots, keep, v);
}

/// When no installed package bears the name of a dependency of a needed
/// package, every package that provides that name is needed.
pub proof fn lemma_all_providers_of_needed_are_needed(pkgs: Seq<PackageInfo>, u: int, d: Dependency, v: int)
    requires
        needed(pkgs, u),
        pkgs[u].depends@.contains(d) || pkgs[u].optdepends@.contains(d),
        !has_named(pkgs, d.name@),
        is_provider(pkgs, d.name_hash.0, v),
    ensures
        needed(pkgs, v),
{
    lemma_needed_is_installed(pkgs, u);
    assert(resolves_to(pkgs, d, v));
    if pkgs[u].depends@.contains(d) {
        let k = choose|k: int| 0 <= k < pkgs[u].depends@.len() && pkgs[u].depends@[k] == d;
        assert(resolves_to(pkgs, pkgs[u].depends@[k], v));
    } else {
        let k = choose|k: int| 0 <= k < pkgs[u].optdepends@.len() && pkgs[u].optdepends@[k] == d;
        assert(resolves_to(pkgs, pkgs[u].optdepends@[k], v));
    }
    lemma_requirement_of_needed_is_needed(pkgs, u, v);
}

/// A needed package is one of the installed packages.
pub proof fn lemma_needed_is_installed(pkgs: Seq<PackageInfo>, v: int)
    requires
        needed(pkgs, v),
    ensures
        0 <= v < pkgs.len(),
{
    let in_range = |w: int| 0 <= w < pkgs.len();
    lemma_needed_is_least(pkgs, in_range, v);
}

} // verus!
