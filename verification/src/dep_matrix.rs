//! The dependency graph as a dense square matrix of flags, and the search
//! for the needed packages over it.
//!
//! Row `u`, column `v` is set when the package at `u` requires the package
//! at `v`, by a hard or an optional dependency.

use vstd::prelude::*;
use std::collections::HashMap;
use crate::common::{PackageIndex, ProviderList, on_stack};
use crate::graph::{reachable, count_unmarked, lemma_mark_one, lemma_root_reachable, lemma_step_reachable,
    lemma_reachable_in_closed_set, lemma_reachable_same_graph, lemma_reachable_monotone};
use crate::model::{
    PackageInfo, Dependency, MissingDependency, InstallReason, is_explicit, is_provider,
    is_named, has_named, resolves_to, is_resolvable, hard_deps_resolvable, depends_on, needed,
    dependency_graph, explicit_packages, find_package, names_not_kept, names_where_unset,
    lemma_names_not_kept_agree, left_out_before, lemma_names_not_kept_ranks,
};
use crate::providers::{
    providers_complete, providers_indexed, lemma_providers_start, lemma_provider_added,
    lemma_provider_package_done, lemma_providers_done,
};

verus! {

/// The flag of row `r`, column `c` in a row-major square matrix of side `n`.
spec fn cell(m: Seq<bool>, n: int, r: int, c: int) -> bool {
    m[r * n + c]
}

/// Where the cell at row `r`, column `c` lies in the flat vector.
proof fn lemma_cell_index(n: int, r: int, c: int)
    requires
        0 <= r < n,
        0 <= c < n,
    ensures
        0 <= r * n + c < n * n,
{
    assert(0 <= r * n + c < n * n) by (nonlinear_arith)
        requires
            0 <= r < n,
            0 <= c < n,
    {
        assert(r * n <= (n - 1) * n);
    }
}

/// Distinct cells lie at distinct places in the flat vector.
proof fn lemma_cell_distinct(n: int, r1: int, c1: int, r2: int, c2: int)
    requires
        0 <= r1 < n,
        0 <= c1 < n,
        0 <= r2 < n,
        0 <= c2 < n,
        r1 != r2 || c1 != c2,
    ensures
        r1 * n + c1 != r2 * n + c2,
{
    if r1 < r2 {
        assert(r1 * n + c1 < r2 * n + c2) by (nonlinear_arith)
            requires
                0 <= r1 < r2,
                0 <= c1 < n,
                0 <= c2,
        {
            assert((r1 + 1) * n <= r2 * n);
        }
    } else if r2 < r1 {
        assert(r2 * n + c2 < r1 * n + c1) by (nonlinear_arith)
            requires
                0 <= r2 < r1,
                0 <= c2 < n,
                0 <= c1,
        {
            assert((r2 + 1) * n <= r1 * n);
        }
    }
}

/// Sets the cell at row `r`, column `c`.
fn set_cell(matrix: &mut Vec<bool>, n: usize, r: usize, c: usize)
    requires
        old(matrix)@.len() == n * n,
        r < n,
        c < n,
    ensures
        final(matrix)@.len() == n * n,
        forall|r2: int, c2: int| 0 <= r2 < n && 0 <= c2 < n ==>
            #[trigger] cell(final(matrix)@, n as int, r2, c2) == (cell(old(matrix)@, n as int, r2, c2) || (r2 == r && c2 == c)),
{
    proof {
        lemma_cell_index(n as int, r as int, c as int);
    }
    let ghost before = matrix@;
    let len = matrix.len();
    assert(r * n + c < len);
    assert(r * n <= r * n + c);
    matrix.set(r * n + c, true);
    assert forall|r2: int, c2: int| 0 <= r2 < n && 0 <= c2 < n implies
        #[trigger] cell(matrix@, n as int, r2, c2) == (cell(before, n as int, r2, c2) || (r2 == r && c2 == c)) by {
        lemma_cell_index(n as int, r2, c2);
        if r2 != r || c2 != c {
            lemma_cell_distinct(n as int, r as int, c as int, r2, c2);
        }
    }
}

/// Maps the name hash of each provided virtual package to the packages
/// that provide it, in list order.
fn index_providers(packages: &Vec<PackageInfo>) -> (map: HashMap<u64, ProviderList>)
    ensures
        providers_complete(packages@, map@),
{
    let ghost pkgs = packages@;
    let mut map: HashMap<u64, ProviderList> = HashMap::new();
    proof {
        lemma_providers_start(pkgs, map@);
    }
    let mut i: usize = 0;
    while i < packages.len()
        invariant
            pkgs == packages@,
            i <= pkgs.len(),
            providers_indexed(pkgs, map@, i as int, 0),
        decreases pkgs.len() - i,
    {
        let provides = &packages[i].provides;
        let mut k: usize = 0;
        while k < provides.len()
            invariant
                pkgs == packages@,
                i < pkgs.len(),
                provides == pkgs[i as int].provides,
                k <= provides@.len(),
                providers_indexed(pkgs, map@, i as int, k as int),
            decreases provides@.len() - k,
        {
            let h = provides[k].name_hash.0;
            let ghost before = map@;
            let list = match map.remove(&h) {
                Some(mut list) => {
                    list.add_provider(PackageIndex(i));
                    list
                },
                None => ProviderList::new(PackageIndex(i)),
            };
            let ghost added = list;
            map.insert(h, list);
            proof {
                assert(map@ == before.insert(h, added));
                lemma_provider_added(pkgs, before, map@, added, i as int, k as int);
            }
            k += 1;
        }
        proof {
            lemma_provider_package_done(pkgs, map@, i as int);
        }
        i += 1;
    }
    proof {
        lemma_providers_done(pkgs, map@);
    }
    map
}

/// Sets, in row `row`, the column of every package that satisfies `dep`;
/// tells whether any does.
fn mark_targets(
    packages: &Vec<PackageInfo>,
    providers: &HashMap<u64, ProviderList>,
    matrix: &mut Vec<bool>,
    n: usize,
    row: usize,
    dep: &Dependency,
) -> (resolved: bool)
    requires
        n == packages@.len(),
        row < n,
        old(matrix)@.len() == n * n,
        providers_complete(packages@, providers@),
    ensures
        final(matrix)@.len() == n * n,
        forall|r: int, c: int| 0 <= r < n && 0 <= c < n ==>
            #[trigger] cell(final(matrix)@, n as int, r, c)
                == (cell(old(matrix)@, n as int, r, c) || (r == row && resolves_to(packages@, *dep, c))),
        resolved == is_resolvable(packages@, *dep),
{
    let ghost pkgs = packages@;
    let ghost m0 = matrix@;
    match find_package(packages, &dep.name) {
        Some(j) => {
            set_cell(matrix, n, row, j.0);
            assert forall|r: int, c: int| 0 <= r < n && 0 <= c < n implies
                #[trigger] cell(matrix@, n as int, r, c)
                    == (cell(m0, n as int, r, c) || (r == row && resolves_to(pkgs, *dep, c))) by {
                assert(is_named(pkgs, dep.name@, j.0 as int));
                if resolves_to(pkgs, *dep, c) && c != j.0 {
                    if c < j.0 {
                        assert(pkgs[c].name@ != dep.name@);
                    } else {
                        assert(pkgs[j.0 as int].name@ != dep.name@);
                    }
                }
            }
            assert(is_named(pkgs, dep.name@, j.0 as int));
            true
        },
        None => {
            let h = dep.name_hash.0;
            match providers.get(&h) {
                Some(list) => {
                    let ps = list.iter();
                    let mut idx: usize = 0;
                    while idx < ps.len()
                        invariant
                            pkgs == packages@,
                            n == pkgs.len(),
                            row < n,
                            !has_named(pkgs, dep.name@),
                            h == dep.name_hash.0,
                            providers_complete(pkgs, providers@),
                            providers@.contains_key(h),
                            ps@ == providers@[h]@,
                            idx <= ps@.len(),
                            matrix@.len() == n * n,
                            forall|r: int, c: int| 0 <= r < n && 0 <= c < n ==>
                                #[trigger] cell(matrix@, n as int, r, c)
                                    ==> (cell(m0, n as int, r, c) || (r == row && is_provider(pkgs, h, c))),
                            forall|r: int, c: int| 0 <= r < n && 0 <= c < n && #[trigger] cell(m0, n as int, r, c)
                                ==> cell(matrix@, n as int, r, c),
                            forall|t: int| 0 <= t < idx ==> cell(matrix@, n as int, row as int, #[trigger] ps@[t].0 as int),
                        decreases ps@.len() - idx,
                    {
                        let p = ps[idx];
                        assert(is_provider(pkgs, h, ps@[idx as int].0 as int));
                        let ghost m1 = matrix@;
                        set_cell(matrix, n, row, p.0);
                        assert forall|t: int| 0 <= t < idx + 1 implies cell(matrix@, n as int, row as int, #[trigger] ps@[t].0 as int) by {
                            assert(is_provider(pkgs, h, ps@[t].0 as int));
                            if t < idx {
                                assert(cell(m1, n as int, row as int, ps@[t].0 as int));
                            }
                        }
                        assert forall|r: int, c: int| 0 <= r < n && 0 <= c < n && #[trigger] cell(m0, n as int, r, c)
                            implies cell(matrix@, n as int, r, c) by {
                            assert(cell(m1, n as int, r, c));
                        }
                        idx += 1;
                    }
                    assert forall|r: int, c: int| 0 <= r < n && 0 <= c < n implies
                        #[trigger] cell(matrix@, n as int, r, c)
                            == (cell(m0, n as int, r, c) || (r == row && resolves_to(pkgs, *dep, c))) by {
                        if r == row && is_provider(pkgs, h, c) {
                            assert(providers@[h]@.contains(PackageIndex(c as usize)));
                            let t = choose|t: int| 0 <= t < ps@.len() && ps@[t] == PackageIndex(c as usize);
                            assert(cell(matrix@, n as int, row as int, ps@[t].0 as int));
                        }
                    }
                    proof {
                        list.lemma_nonempty();
                        assert(is_provider(pkgs, h, ps@[0].0 as int));
                    }
                    true
                },
                None => {
                    assert forall|v: int| !#[trigger] is_provider(pkgs, h, v) by {}
                    false
                },
            }
        },
    }
}


/// A dense square matrix of dependency flags, held as a flat vector row
/// after row, together with the packages that its rows and columns stand for.
pub struct DepMatrix {
    matrix: Vec<bool>,
    side: usize,
    packages: Vec<PackageInfo>,
}

impl DepMatrix {
    #[verifier::type_invariant]
    spec fn shape(self) -> bool {
        &&& self.matrix@.len() == self.side * self.side
        &&& self.packages@.len() == self.side
    }

    /// The number of packages: the number of rows and of columns.
    pub closed spec fn side(&self) -> nat {
        self.side as nat
    }

    /// The packages, in the order of the rows.
    pub closed spec fn packages(&self) -> Seq<PackageInfo> {
        self.packages@
    }

    /// The flag at row `u`, column `v`: the package at `u` requires the package at `v`.
    pub closed spec fn has_edge(&self, u: int, v: int) -> bool {
        &&& 0 <= u < self.side
        &&& 0 <= v < self.side
        &&& cell(self.matrix@, self.side as int, u, v)
    }

    /// An edge joins two packages of the matrix.
    pub proof fn lemma_edge_in_range(&self, u: int, v: int)
        requires
            self.has_edge(u, v),
        ensures
            0 <= u < self.side(),
            0 <= v < self.side(),
    {
    }

    /// The graph that the matrix holds.
    pub open spec fn graph(&self) -> spec_fn(int, int) -> bool {
        |u: int, v: int| self.has_edge(u, v)
    }

    /// The explicitly installed packages among the rows.
    pub open spec fn explicit_rows(&self) -> spec_fn(int) -> bool {
        |u: int| 0 <= u < self.side() && is_explicit(self.packages()[u])
    }

    /// The package at `v` is needed according to the matrix.
    pub open spec fn is_needed(&self, v: int) -> bool {
        reachable(self.graph(), self.explicit_rows(), v)
    }

    /// Builds the dependency matrix of `packages`. Row `u`, column `v` is
    /// set exactly when the package at `u` requires the package at `v`, by a
    /// hard or an optional dependency. A hard dependency that no installed
    /// package satisfies is an error; the first one, in package order and
    /// then in dependency order, is returned.
    pub fn from_alpm_packages(packages: Vec<PackageInfo>) -> (result: Result<DepMatrix, MissingDependency>)
        requires
            packages@.len() * packages@.len() <= usize::MAX,
        ensures
            match result {
                Ok(m) => {
                    &&& m.side() == packages@.len()
                    &&& m.packages() == packages@
                    &&& forall|u: int, v: int| #[trigger] m.has_edge(u, v) == depends_on(packages@, u, v)
                    &&& forall|u: int| 0 <= u < packages@.len() ==> hard_deps_resolvable(packages@, u)
                },
                Err(e) => {
                    &&& e.package.0 < packages@.len()
                    &&& e.dependency < packages@[e.package.0 as int].depends@.len()
                    &&& !is_resolvable(packages@, packages@[e.package.0 as int].depends@[e.dependency as int])
                    &&& forall|u: int| 0 <= u < e.package.0 ==> hard_deps_resolvable(packages@, u)
                    &&& forall|k: int| 0 <= k < e.dependency
                        ==> is_resolvable(packages@, packages@[e.package.0 as int].depends@[k])
                },
            },
    {
        let ghost pkgs = packages@;
        let n = packages.len();
        let providers = index_providers(&packages);
        let size = n * n;
        let mut matrix: Vec<bool> = Vec::new();
        while matrix.len() < size
            invariant
                matrix@.len() <= size,
                forall|i: int| 0 <= i < matrix@.len() ==> !#[trigger] matrix@[i],
            decreases size - matrix@.len(),
        {
            matrix.push(false);
        }
        assert forall|r: int, c: int| 0 <= r < n && 0 <= c < n implies !#[trigger] cell(matrix@, n as int, r, c) by {
            lemma_cell_index(n as int, r, c);
        }
        let mut row: usize = 0;
        while row < n
            invariant
                pkgs == packages@,
                n == pkgs.len(),
                size == n * n,
                row <= n,
                providers_complete(pkgs, providers@),
                matrix@.len() == size,
                forall|r: int, c: int| 0 <= r < n && 0 <= c < n ==>
                    #[trigger] cell(matrix@, n as int, r, c) == (r < row && depends_on(pkgs, r, c)),
                forall|r: int| 0 <= r < row ==> hard_deps_resolvable(pkgs, r),
            decreases n - row,
        {
            let pkg = &packages[row];
            let mut k: usize = 0;
            while k < pkg.depends.len()
                invariant
                    pkgs == packages@,
                    n == pkgs.len(),
                    size == n * n,
                    row < n,
                    *pkg == pkgs[row as int],
                    k <= pkg.depends@.len(),
                    providers_complete(pkgs, providers@),
                    matrix@.len() == size,
                    forall|r: int, c: int| 0 <= r < n && 0 <= c < n ==>
                        #[trigger] cell(matrix@, n as int, r, c) == ((r < row && depends_on(pkgs, r, c)) || (r == row
                            && exists|k2: int| 0 <= k2 < k && #[trigger] resolves_to(pkgs, pkg.depends@[k2], c))),
                    forall|r: int| 0 <= r < row ==> hard_deps_resolvable(pkgs, r),
                    forall|k2: int| 0 <= k2 < k ==> #[trigger] is_resolvable(pkgs, pkg.depends@[k2]),
                decreases pkg.depends@.len() - k,
            {
                let ghost m0 = matrix@;
                let resolved = mark_targets(&packages, &providers, &mut matrix, n, row, &pkg.depends[k]);
                if !resolved {
                    return Err(MissingDependency { package: PackageIndex(row), dependency: k });
                }
                assert forall|r: int, c: int| 0 <= r < n && 0 <= c < n implies
                    #[trigger] cell(matrix@, n as int, r, c) == ((r < row && depends_on(pkgs, r, c)) || (r == row
                        && exists|k2: int| 0 <= k2 < k + 1 && #[trigger] resolves_to(pkgs, pkg.depends@[k2], c))) by {
                    assert(cell(m0, n as int, r, c) == ((r < row && depends_on(pkgs, r, c)) || (r == row
                        && exists|k2: int| 0 <= k2 < k && #[trigger] resolves_to(pkgs, pkg.depends@[k2], c))));
                    if r == row && resolves_to(pkgs, pkg.depends@[k as int], c) {
                        assert(0 <= k < k + 1);
                    }
                }
                k += 1;
            }
            let mut k: usize = 0;
            while k < pkg.optdepends.len()
                invariant
                    pkgs == packages@,
                    n == pkgs.len(),
                    size == n * n,
                    row < n,
                    *pkg == pkgs[row as int],
                    k <= pkg.optdepends@.len(),
                    providers_complete(pkgs, providers@),
                    matrix@.len() == size,
                    forall|r: int, c: int| 0 <= r < n && 0 <= c < n ==>
                        #[trigger] cell(matrix@, n as int, r, c) == ((r < row && depends_on(pkgs, r, c)) || (r == row && (
                            (exists|k2: int| 0 <= k2 < pkg.depends@.len() && #[trigger] resolves_to(pkgs, pkg.depends@[k2], c))
                            || exists|k2: int| 0 <= k2 < k && #[trigger] resolves_to(pkgs, pkg.optdepends@[k2], c)))),
                    forall|r: int| 0 <= r <= row ==> hard_deps_resolvable(pkgs, r),
                decreases pkg.optdepends@.len() - k,
            {
                let ghost m0 = matrix@;
                let _ = mark_targets(&packages, &providers, &mut matrix, n, row, &pkg.optdepends[k]);
                assert forall|r: int, c: int| 0 <= r < n && 0 <= c < n implies
                    #[trigger] cell(matrix@, n as int, r, c) == ((r < row && depends_on(pkgs, r, c)) || (r == row && (
                        (exists|k2: int| 0 <= k2 < pkg.depends@.len() && #[trigger] resolves_to(pkgs, pkg.depends@[k2], c))
                        || exists|k2: int| 0 <= k2 < k + 1 && #[trigger] resolves_to(pkgs, pkg.optdepends@[k2], c)))) by {
                    assert(cell(m0, n as int, r, c) == ((r < row && depends_on(pkgs, r, c)) || (r == row && (
                        (exists|k2: int| 0 <= k2 < pkg.depends@.len() && #[trigger] resolves_to(pkgs, pkg.depends@[k2], c))
                        || exists|k2: int| 0 <= k2 < k && #[trigger] resolves_to(pkgs, pkg.optdepends@[k2], c)))));
                    if r == row && resolves_to(pkgs, pkg.optdepends@[k as int], c) {
                        assert(0 <= k < k + 1);
                    }
                }
                k += 1;
            }
            assert forall|r: int, c: int| 0 <= r < n && 0 <= c < n implies
                #[trigger] cell(matrix@, n as int, r, c) == (r < row + 1 && depends_on(pkgs, r, c)) by {}
            row += 1;
        }
        let m = DepMatrix { matrix, side: n, packages };
        assert forall|u: int, v: int| #[trigger] m.has_edge(u, v) == depends_on(pkgs, u, v) by {
            if depends_on(pkgs, u, v) {
                if exists|k2: int| 0 <= k2 < pkgs[u].depends.len() && #[trigger] resolves_to(pkgs, pkgs[u].depends@[k2], v) {
                    let k2 = choose|k2: int| 0 <= k2 < pkgs[u].depends.len() && #[trigger] resolves_to(pkgs, pkgs[u].depends@[k2], v);
                    assert(0 <= v < n);
                } else {
                    let k2 = choose|k2: int| 0 <= k2 < pkgs[u].optdepends.len() && #[trigger] resolves_to(pkgs, pkgs[u].optdepends@[k2], v);
                    assert(0 <= v < n);
                }
            }
        }
        Ok(m)
    }

    /// Pushes every package that the package at `u` requires and that is
    /// not visited yet.
    fn push_row(&self, visited: &Vec<bool>, stack: &mut Vec<PackageIndex>, u: usize)
        requires
            u < self.side(),
            visited@.len() == self.side(),
        ensures
            final(stack)@.len() >= old(stack)@.len(),
            forall|k: int| 0 <= k < old(stack)@.len() ==> #[trigger] final(stack)@[k] == old(stack)@[k],
            forall|k: int| old(stack)@.len() <= k < final(stack)@.len() ==> self.has_edge(u as int, #[trigger] final(stack)@[k].0 as int),
            forall|v: int| #[trigger] self.has_edge(u as int, v) && !visited@[v] ==> on_stack(final(stack)@, v),
    {
        proof {
            use_type_invariant(self);
        }
        let n = self.side;
        let ghost s0 = stack@;
        let mut col: usize = 0;
        while col < n
            invariant
                n == self.side,
                self.matrix@.len() == n * n,
                u < n,
                col <= n,
                visited@.len() == n,
                stack@.len() >= s0.len(),
                forall|k: int| 0 <= k < s0.len() ==> #[trigger] stack@[k] == s0[k],
                forall|k: int| s0.len() <= k < stack@.len() ==> self.has_edge(u as int, #[trigger] stack@[k].0 as int),
                forall|v: int| 0 <= v < col && #[trigger] self.has_edge(u as int, v) && !visited@[v] ==> on_stack(stack@, v),
            decreases n - col,
        {
            proof {
                lemma_cell_index(n as int, u as int, col as int);
            }
            let len = self.matrix.len();
            assert(u * n <= u * n + col < len);
            if self.matrix[u * n + col] && !visited[col] {
                let ghost before = stack@;
                stack.push(PackageIndex(col));
                assert forall|v: int| 0 <= v < col + 1 && #[trigger] self.has_edge(u as int, v) && !visited@[v]
                    implies on_stack(stack@, v) by {
                    if v < col {
                        let k = choose|k: int| 0 <= k < before.len() && #[trigger] before[k].0 == v;
                        assert(stack@[k] == before[k]);
                    } else {
                        assert(stack@[before.len() as int].0 == v);
                    }
                }
            } else {
                assert forall|v: int| 0 <= v < col + 1 && #[trigger] self.has_edge(u as int, v) && !visited@[v]
                    implies on_stack(stack@, v) by {}
            }
            col += 1;
        }
    }

    /// Finds the needed packages by a depth-first search over the matrix,
    /// started from each explicitly installed package in turn. The flag of
    /// each package is true exactly when it is needed according to the matrix.
    pub fn compute_needed(&self) -> (visited: Vec<bool>)
        ensures
            visited@.len() == self.side(),
            forall|i: int| 0 <= i < self.side() ==> #[trigger] visited@[i] == self.is_needed(i),
    {
        proof {
            use_type_invariant(self);
        }
        let n = self.side;
        let ghost adj = self.graph();
        let ghost roots = self.explicit_rows();
        let mut visited: Vec<bool> = Vec::new();
        while visited.len() < n
            invariant
                visited@.len() <= n,
                forall|i: int| 0 <= i < visited@.len() ==> !#[trigger] visited@[i],
            decreases n - visited@.len(),
        {
            visited.push(false);
        }
        let mut stack: Vec<PackageIndex> = Vec::new();
        let mut pos: usize = 0;
        while pos < n
            invariant
                n == self.side,
                self.packages@.len() == n,
                adj == self.graph(),
                roots == self.explicit_rows(),
                pos <= n,
                visited@.len() == n,
                stack@.len() == 0,
                forall|i: int| 0 <= i < n && #[trigger] visited@[i] ==> self.is_needed(i),
                forall|u: int, v: int| 0 <= u < n && #[trigger] visited@[u] && #[trigger] self.has_edge(u, v)
                    ==> visited@[v] || on_stack(stack@, v),
                forall|i: int| 0 <= i < pos && is_explicit(#[trigger] self.packages@[i]) ==> visited@[i],
            decreases n - pos,
        {
            let explicit = match self.packages[pos].reason {
                InstallReason::Explicit => true,
                InstallReason::Depend => false,
            };
            if !visited[pos] && explicit {
                // An explicitly installed package not visited yet.
                proof {
                    lemma_root_reachable(adj, roots, pos as int);
                }
                visited.set(pos, true);
                self.push_row(&visited, &mut stack, pos);
                assert forall|k: int| #![trigger stack@[k]] 0 <= k < stack@.len() implies self.is_needed(stack@[k].0 as int)
                    && 0 <= stack@[k].0 < n by {
                    lemma_step_reachable(adj, roots, pos as int, stack@[k].0 as int);
                }
                loop
                    invariant
                        n == self.side,
                        self.packages@.len() == n,
                        adj == self.graph(),
                        roots == self.explicit_rows(),
                        pos < n,
                        visited@.len() == n,
                        forall|k: int| #![trigger stack@[k]] 0 <= k < stack@.len() ==> self.is_needed(stack@[k].0 as int)
                            && 0 <= stack@[k].0 < n,
                        forall|i: int| 0 <= i < n && #[trigger] visited@[i] ==> self.is_needed(i),
                        forall|u: int, v: int| 0 <= u < n && #[trigger] visited@[u] && #[trigger] self.has_edge(u, v)
                            ==> visited@[v] || on_stack(stack@, v),
                        forall|i: int| 0 <= i <= pos && is_explicit(#[trigger] self.packages@[i]) ==> visited@[i],
                    ensures
                        stack@.len() == 0,
                    decreases count_unmarked(visited@), stack@.len(),
                {
                    let ghost s0 = stack@;
                    match stack.pop() {
                        Some(w) => {
                            assert(s0 =~= stack@.push(w));
                            assert(self.is_needed(w.0 as int) && w.0 < n) by {
                                let last = stack@.len() as int;
                                assert(s0[last] == w);
                                assert(self.is_needed(s0[last].0 as int) && 0 <= s0[last].0 < n);
                            }
                            let ghost s1 = stack@;
                            if !visited[w.0] {
                                proof {
                                    lemma_mark_one(visited@, w.0 as int);
                                }
                                visited.set(w.0, true);
                                self.push_row(&visited, &mut stack, w.0);
                                assert forall|k: int| #![trigger stack@[k]] 0 <= k < stack@.len() implies self.is_needed(stack@[k].0 as int)
                                    && 0 <= stack@[k].0 < n by {
                                    if k < s1.len() {
                                        assert(stack@[k] == s1[k]);
                                        assert(s0[k] == s1[k]);
                                        assert(self.is_needed(s0[k].0 as int) && 0 <= s0[k].0 < n);
                                    } else {
                                        lemma_step_reachable(adj, roots, w.0 as int, stack@[k].0 as int);
                                    }
                                }
                            } else {
                                assert forall|k: int| #![trigger stack@[k]] 0 <= k < stack@.len() implies self.is_needed(stack@[k].0 as int)
                                    && 0 <= stack@[k].0 < n by {
                                    assert(s0[k] == stack@[k]);
                                    assert(self.is_needed(s0[k].0 as int) && 0 <= s0[k].0 < n);
                                }
                            }
                            assert forall|u: int, v: int| 0 <= u < n && #[trigger] visited@[u] && #[trigger] self.has_edge(u, v)
                                implies visited@[v] || on_stack(stack@, v) by {
                                if u != w.0 && !visited@[v] {
                                    let k = choose|k: int| 0 <= k < s0.len() && #[trigger] s0[k].0 == v;
                                    if k < s1.len() {
                                        assert(stack@[k] == s1[k]);
                                    }
                                }
                            }
                        },
                        None => {
                            break;
                        },
                    }
                }
            }
            pos += 1;
        }
        proof {
            let keep = |i: int| 0 <= i < n && visited@[i];
            assert forall|r: int| #[trigger] roots(r) implies keep(r) by {
                assert(is_explicit(self.packages@[r]));
            }
            assert forall|u: int, w: int| #[trigger] keep(u) && #[trigger] adj(u, w) implies keep(w) by {
                assert(self.has_edge(u, w));
                assert(!on_stack(stack@, w));
            }
            assert forall|i: int| 0 <= i < n implies #[trigger] visited@[i] == self.is_needed(i) by {
                if self.is_needed(i) {
                    lemma_reachable_in_closed_set(adj, roots, keep, i);
                }
            }
        }
        visited
    }

    /// The number of set flags among the first `c` columns of row `r`.
    pub open spec fn edges_in_row(&self, r: int, c: int) -> nat
        decreases c,
    {
        if c <= 0 {
            0
        } else {
            self.edges_in_row(r, c - 1) + if self.has_edge(r, c - 1) { 1nat } else { 0nat }
        }
    }

    /// The number of set flags in the first `r` rows.
    pub open spec fn edges_in_rows(&self, r: int) -> nat
        decreases r,
    {
        if r <= 0 {
            0
        } else {
            self.edges_in_rows(r - 1) + self.edges_in_row(r - 1, self.side() as int)
        }
    }

    /// The number of dependency edges: of set flags in the matrix.
    pub open spec fn edge_count(&self) -> nat {
        self.edges_in_rows(self.side() as int)
    }

    /// Counts the dependency edges.
    pub fn count_edges(&self) -> (count: usize)
        ensures
            count == self.edge_count(),
    {
        proof {
            use_type_invariant(self);
        }
        let n = self.side;
        let mut count: usize = 0;
        let mut r: usize = 0;
        while r < n
            invariant
                n == self.side,
                self.matrix@.len() == n * n,
                r <= n,
                count == self.edges_in_rows(r as int),
                count <= r * n,
            decreases n - r,
        {
            let mut c: usize = 0;
            while c < n
                invariant
                    n == self.side,
                    self.matrix@.len() == n * n,
                    r < n,
                    c <= n,
                    count == self.edges_in_rows(r as int) + self.edges_in_row(r as int, c as int),
                    count <= r * n + c,
                decreases n - c,
            {
                proof {
                    lemma_cell_index(n as int, r as int, c as int);
                }
                let len = self.matrix.len();
                assert(r * n <= r * n + c < len);
                if self.matrix[r * n + c] {
                    count += 1;
                }
                c += 1;
            }
            assert(r * n + n == (r + 1) * n) by (nonlinear_arith);
            r += 1;
        }
        count
    }

    /// The number of flags in the matrix: the side squared.
    pub fn total_size(&self) -> (size: usize)
        ensures
            size == self.side() * self.side(),
    {
        proof {
            use_type_invariant(self);
        }
        let len = self.matrix.len();
        assert(self.side * self.side == len);
        self.side * self.side
    }

    /// The names of the packages that are not needed according to the
    /// matrix, in list order: what the matrix analysis prints.
    pub fn unneeded_names(&self) -> (names: Vec<String>)
        ensures
            names@.map_values(|s: String| s@)
                == names_not_kept(self.packages(), |v: int| self.is_needed(v), self.side() as int),
            names@.len() == left_out_before(|v: int| self.is_needed(v), self.side() as int).len(),
            forall|v: int| #![trigger self.packages()[v]] 0 <= v < self.side() && !self.is_needed(v) ==> {
                &&& left_out_before(|w: int| self.is_needed(w), v).len() < names@.len()
                &&& names@[left_out_before(|w: int| self.is_needed(w), v).len() as int]@ == self.packages()[v].name@
            },
    {
        proof {
            use_type_invariant(self);
        }
        let needed_flags = self.compute_needed();
        let names = names_where_unset(&self.packages, &needed_flags);
        proof {
            lemma_names_not_kept_agree(
                self.packages@,
                |v: int| needed_flags@[v],
                |v: int| self.is_needed(v),
                self.side as int,
            );
            let keep = |w: int| self.is_needed(w);
            lemma_names_not_kept_ranks(self.packages@, keep, self.side as int);
            let shown = names@.map_values(|s: String| s@);
            assert forall|v: int| #![trigger self.packages()[v]] 0 <= v < self.side() && !self.is_needed(v) implies {
                &&& left_out_before(|w: int| self.is_needed(w), v).len() < names@.len()
                &&& names@[left_out_before(|w: int| self.is_needed(w), v).len() as int]@ == self.packages()[v].name@
            } by {
                assert(left_out_before(|w: int| self.is_needed(w), v) == left_out_before(keep, v));
                assert(!keep(v));
                assert(shown[left_out_before(keep, v).len() as int] == names@[left_out_before(keep, v).len() as int]@);
            }
            assert(left_out_before(|w: int| self.is_needed(w), self.side() as int)
                == left_out_before(keep, self.side as int));
        }
        names
    }

    /// The text of the first `c` cells of row `r`: each cell as `1` or `0`
    /// followed by a space.
    pub open spec fn row_text(&self, r: int, c: int) -> Seq<u8>
        decreases c,
    {
        if c <= 0 {
            Seq::empty()
        } else {
            self.row_text(r, c - 1) + seq![if self.has_edge(r, c - 1) { 49u8 } else { 48u8 }, 32u8]
        }
    }

    /// The text of the first `r` rows, each row ended by a newline.
    pub open spec fn rows_text(&self, r: int) -> Seq<u8>
        decreases r,
    {
        if r <= 0 {
            Seq::empty()
        } else {
            self.rows_text(r - 1) + self.row_text(r - 1, self.side() as int) + seq![10u8]
        }
    }

    /// The matrix as text, as it is exported to a file.
    pub open spec fn text(&self) -> Seq<u8> {
        self.rows_text(self.side() as int)
    }

    /// Renders the matrix as text: one line per row, each cell written as
    /// `1` or `0` followed by a space.
    pub fn export_text(&self) -> (text: Vec<u8>)
        ensures
            text@ == self.text(),
    {
        proof {
            use_type_invariant(self);
        }
        let n = self.side;
        let mut text: Vec<u8> = Vec::new();
        let mut r: usize = 0;
        while r < n
            invariant
                n == self.side,
                self.matrix@.len() == n * n,
                r <= n,
                text@ == self.rows_text(r as int),
            decreases n - r,
        {
            let mut c: usize = 0;
            while c < n
                invariant
                    n == self.side,
                    self.matrix@.len() == n * n,
                    r < n,
                    c <= n,
                    text@ == self.rows_text(r as int) + self.row_text(r as int, c as int),
                decreases n - c,
            {
                proof {
                    lemma_cell_index(n as int, r as int, c as int);
                }
                let len = self.matrix.len();
                assert(r * n <= r * n + c < len);
                let digit: u8 = if self.matrix[r * n + c] { 49u8 } else { 48u8 };
                let ghost before = text@;
                text.push(digit);
                text.push(32u8);
                assert(text@ =~= self.rows_text(r as int) + self.row_text(r as int, c + 1));
                c += 1;
            }
            let ghost before = text@;
            text.push(10u8);
            assert(text@ =~= self.rows_text(r + 1));
            r += 1;
        }
        text
    }
}

/// The number of times the byte `b` occurs in `s`.
pub open spec fn count_byte(s: Seq<u8>, b: u8) -> nat
    decreases s.len(),
{
    if s.len() == 0 {
        0
    } else {
        count_byte(s.drop_last(), b) + if s.last() == b { 1nat } else { 0nat }
    }
}

proof fn lemma_count_byte_concat(s: Seq<u8>, t: Seq<u8>, b: u8)
    ensures
        count_byte(s + t, b) == count_byte(s, b) + count_byte(t, b),
    decreases t.len(),
{
    if t.len() == 0 {
        assert(s + t =~= s);
    } else {
        lemma_count_byte_concat(s, t.drop_last(), b);
        assert((s + t).drop_last() =~= s + t.drop_last());
    }
}

proof fn lemma_count_byte_pair(x: u8, y: u8, b: u8)
    ensures
        count_byte(seq![x, y], b) == (if x == b { 1nat } else { 0nat }) + (if y == b { 1nat } else { 0nat }),
{
    let s = seq![x, y];
    assert(s.drop_last() =~= seq![x]);
    assert(s.last() == y);
    lemma_count_byte_one(x, b);
}

proof fn lemma_count_byte_one(x: u8, b: u8)
    ensures
        count_byte(seq![x], b) == (if x == b { 1nat } else { 0nat }),
{
    let s = seq![x];
    assert(s.drop_last() =~= Seq::<u8>::empty());
    assert(s.last() == x);
    assert(count_byte(Seq::<u8>::empty(), b) == 0);
    assert(count_byte(s, b) == count_byte(s.drop_last(), b) + if s.last() == b { 1nat } else { 0nat });
}

impl DepMatrix {
    /// The character written for row `r`, column `c`: `1` when the flag is set, else `0`.
    pub open spec fn cell_byte(&self, r: int, c: int) -> u8 {
        if self.has_edge(r, c) { 49u8 } else { 48u8 }
    }

    /// Where the line of row `r` starts in the text.
    pub open spec fn line_start(&self, r: int) -> int {
        r * (2 * self.side() + 1)
    }

    proof fn lemma_row_text(&self, r: int, c: int)
        requires
            0 <= c,
        ensures
            self.row_text(r, c).len() == 2 * c,
            count_byte(self.row_text(r, c), 49u8) == self.edges_in_row(r, c),
            count_byte(self.row_text(r, c), 10u8) == 0,
            forall|c2: int| 0 <= c2 < c ==> #[trigger] self.row_text(r, c)[2 * c2] == self.cell_byte(r, c2)
                && self.row_text(r, c)[2 * c2 + 1] == 32u8,
        decreases c,
    {
        if c > 0 {
            self.lemma_row_text(r, c - 1);
            let prev = self.row_text(r, c - 1);
            let pair = seq![self.cell_byte(r, c - 1), 32u8];
            assert(self.row_text(r, c) == prev + pair);
            lemma_count_byte_concat(prev, pair, 49u8);
            lemma_count_byte_concat(prev, pair, 10u8);
            lemma_count_byte_pair(self.cell_byte(r, c - 1), 32u8, 49u8);
            lemma_count_byte_pair(self.cell_byte(r, c - 1), 32u8, 10u8);
            assert forall|c2: int| 0 <= c2 < c implies #[trigger] self.row_text(r, c)[2 * c2] == self.cell_byte(r, c2)
                && self.row_text(r, c)[2 * c2 + 1] == 32u8 by {
                if c2 < c - 1 {
                    assert(prev[2 * c2] == self.cell_byte(r, c2));
                }
            }
        }
    }

    proof fn lemma_rows_text(&self, r: int)
        requires
            0 <= r <= self.side(),
        ensures
            self.rows_text(r).len() == r * (2 * self.side() + 1),
            count_byte(self.rows_text(r), 49u8) == self.edges_in_rows(r),
            count_byte(self.rows_text(r), 10u8) == r,
            forall|r2: int, x: int| 0 <= r2 < r && 0 <= x < 2 * self.side() + 1 ==>
                #[trigger] self.rows_text(r)[self.line_start(r2) + x]
                    == (self.row_text(r2, self.side() as int) + seq![10u8])[x],
        decreases r,
    {
        let n = self.side() as int;
        let w = 2 * n + 1;
        if r > 0 {
            self.lemma_rows_text(r - 1);
            self.lemma_row_text(r - 1, n);
            let prev = self.rows_text(r - 1);
            let line = self.row_text(r - 1, n) + seq![10u8];
            assert(self.rows_text(r) =~= prev + line);
            lemma_count_byte_concat(self.row_text(r - 1, n), seq![10u8], 49u8);
            lemma_count_byte_concat(self.row_text(r - 1, n), seq![10u8], 10u8);
            lemma_count_byte_one(10u8, 49u8);
            lemma_count_byte_one(10u8, 10u8);
            lemma_count_byte_concat(prev, line, 49u8);
            lemma_count_byte_concat(prev, line, 10u8);
            assert((r - 1) * w + w == r * w) by (nonlinear_arith);
            assert forall|r2: int, x: int| 0 <= r2 < r && 0 <= x < w implies
                #[trigger] self.rows_text(r)[self.line_start(r2) + x] == (self.row_text(r2, n) + seq![10u8])[x] by {
                if r2 < r - 1 {
                    assert(r2 * w + x < (r - 1) * w) by (nonlinear_arith)
                        requires
                            0 <= r2 < r - 1,
                            0 <= x < w,
                    {
                        assert((r2 + 1) * w <= (r - 1) * w);
                    }
                    assert(self.rows_text(r)[self.line_start(r2) + x] == prev[self.line_start(r2) + x]);
                } else {
                    assert(self.line_start(r2) == (r - 1) * w);
                }
            }
        }
    }

    /// The text has one line per row, ended by a newline; line `r` holds
    /// each cell `c` of row `r` as `1` (flag set) or `0`, followed by a
    /// space; and the `1`s in the text are as many as the edges.
    pub proof fn lemma_text_layout(&self)
        ensures
            self.text().len() == self.side() * (2 * self.side() + 1),
            count_byte(self.text(), 10u8) == self.side(),
            count_byte(self.text(), 49u8) == self.edge_count(),
            forall|r: int| 0 <= r < self.side() ==>
                self.text()[#[trigger] self.line_start(r) + 2 * self.side()] == 10u8,
            forall|r: int, c: int| 0 <= r < self.side() && 0 <= c < self.side() ==> {
                &&& self.text()[self.line_start(r) + 2 * c] == #[trigger] self.cell_byte(r, c)
                &&& self.text()[self.line_start(r) + 2 * c + 1] == 32u8
            },
    {
        let n = self.side() as int;
        self.lemma_rows_text(n);
        assert forall|r: int| 0 <= r < n implies self.text()[#[trigger] self.line_start(r) + 2 * n] == 10u8 by {
            self.lemma_row_text(r, n);
            assert(self.text()[self.line_start(r) + 2 * n] == (self.row_text(r, n) + seq![10u8])[2 * n]);
        }
        assert forall|r: int, c: int| 0 <= r < n && 0 <= c < n implies {
            &&& self.text()[self.line_start(r) + 2 * c] == #[trigger] self.cell_byte(r, c)
            &&& self.text()[self.line_start(r) + 2 * c + 1] == 32u8
        } by {
            self.lemma_row_text(r, n);
            let line = self.row_text(r, n) + seq![10u8];
            assert(self.text()[self.line_start(r) + 2 * c] == line[2 * c]);
            assert(self.text()[self.line_start(r) + (2 * c + 1)] == line[2 * c + 1]);
            assert(self.row_text(r, n)[2 * c] == self.cell_byte(r, c));
        }
    }
}

/// The matrix holds the dependency graph of the packages, so the search
/// over the matrix finds exactly the needed packages: building the matrix
/// and searching it gives what the search over the dependencies gives.
pub proof fn lemma_matrix_finds_needed(m: DepMatrix, pkgs: Seq<PackageInfo>, v: int)
    requires
        m.side() == pkgs.len(),
        m.packages() == pkgs,
        forall|u: int, w: int| #[trigger] m.has_edge(u, w) == depends_on(pkgs, u, w),
    ensures
        m.is_needed(v) == needed(pkgs, v),
{
    lemma_reachable_same_graph(m.graph(), m.explicit_rows(), dependency_graph(pkgs), explicit_packages(pkgs), v);
}

/// More dependency edges, or more explicitly installed packages, never
/// make a package unneeded: a package that the search over `m1` finds
/// needed, the search over `m2` finds needed too.
pub proof fn lemma_more_edges_keep_needed(m1: DepMatrix, m2: DepMatrix, v: int)
    requires
        m1.side() == m2.side(),
        forall|u: int, w: int| #[trigger] m1.has_edge(u, w) ==> m2.has_edge(u, w),
        forall|i: int| 0 <= i < m1.side() && is_explicit(#[trigger] m1.packages()[i]) ==> is_explicit(m2.packages()[i]),
        m1.is_needed(v),
    ensures
        m2.is_needed(v),
{
    let roots1 = m1.explicit_rows();
    let roots2 = m2.explicit_rows();
    assert forall|r: int| #[trigger] roots1(r) implies roots2(r) by {
        assert(is_explicit(m1.packages()[r]));
    }
    assert forall|u: int, w: int| #[trigger] m1.graph()(u, w) implies m2.graph()(u, w) by {
        assert(m1.has_edge(u, w));
    }
    lemma_reachable_monotone(m1.graph(), roots1, m2.graph(), roots2, v);
}

} // verus!
