//! Finds the needed packages by a depth-first search over the packages'
//! dependencies, resolving each dependency when the search reaches it.

use vstd::prelude::*;
use rustc_hash::FxHashMap;
use crate::common::{PackageIndex, ProviderList, on_stack};
use crate::fx::{fx_get, fx_insert, fx_remove};
use crate::model::{
    PackageInfo, Dependency, MissingDependency, is_provider, is_first_named, has_named, is_named,
    resolves_to, is_resolvable, hard_deps_resolvable, depends_on, is_explicit, needed, find_package,
    lemma_explicit_is_needed, lemma_requirement_of_needed_is_needed, lemma_needed_is_least,
    InstallReason, names_where_unset, unneeded_names_spec, left_out_before, lemma_names_not_kept_ranks,
    lemma_names_not_kept_agree,
};
use crate::graph::{count_unmarked, lemma_mark_one};
use crate::providers::{
    providers_complete, providers_indexed, lemma_providers_start, lemma_provider_added,
    lemma_provider_package_done, lemma_providers_done, provided_so_far, heads_first, is_first_provider,
    is_repeated_provision, lemma_heads_start, lemma_heads_added, lemma_heads_package_done,
    lemma_head_is_first_provider,
};

verus! {

/// A virtual package provided again: the `provided`-th entry of the
/// `provides` list of the package at `package` has the name hash of an
/// earlier entry; `first_provider` is the first package that provides it.
#[derive(Clone, Copy, Debug, PartialEq, Eq)]
pub struct DuplicateProvision {
    pub package: PackageIndex,
    pub provided: usize,
    pub first_provider: PackageIndex,
}

/// The provision (`j1`, `k1`) comes before (`j2`, `k2`): by package, then by
/// position in the `provides` list.
pub open spec fn provision_before(j1: int, k1: int, j2: int, k2: int) -> bool {
    j1 < j2 || (j1 == j2 && k1 < k2)
}

/// `d` reports a repeated provision, with its true first provider.
pub open spec fn reports_duplicate(pkgs: Seq<PackageInfo>, d: DuplicateProvision) -> bool {
    &&& is_repeated_provision(pkgs, d.package.0 as int, d.provided as int)
    &&& is_first_provider(
        pkgs,
        pkgs[d.package.0 as int].provides@[d.provided as int].name_hash.0,
        d.first_provider.0 as int,
    )
}

/// `dups` reports, in order, exactly the repeated provisions that come
/// before (`i`, `k`).
pub open spec fn duplicates_so_far(pkgs: Seq<PackageInfo>, dups: Seq<DuplicateProvision>, i: int, k: int) -> bool {
    &&& forall|t: int| 0 <= t < dups.len() ==> #[trigger] reports_duplicate(pkgs, dups[t])
        && provision_before(dups[t].package.0 as int, dups[t].provided as int, i, k)
    &&& forall|t1: int, t2: int| 0 <= t1 < t2 < dups.len() ==> provision_before(
        #[trigger] dups[t1].package.0 as int, dups[t1].provided as int,
        #[trigger] dups[t2].package.0 as int, dups[t2].provided as int,
    )
    &&& forall|j: int, k2: int| #[trigger] is_repeated_provision(pkgs, j, k2) && provision_before(j, k2, i, k)
        ==> exists|t: int| 0 <= t < dups.len() && #[trigger] dups[t].package.0 == j && dups[t].provided == k2
}

/// Maps the name hash of each provided virtual package to the packages
/// that provide it, in list order, and reports, in order, each provision
/// of a name hash that an earlier provision has already.
fn index_providers(packages: &Vec<PackageInfo>) -> (result: (FxHashMap<u64, ProviderList>, Vec<DuplicateProvision>))
    ensures
        providers_complete(packages@, result.0@),
        duplicates_so_far(packages@, result.1@, packages@.len() as int, 0),
{
    let ghost pkgs = packages@;
    let mut map: FxHashMap<u64, ProviderList> = FxHashMap::default();
    let mut dups: Vec<DuplicateProvision> = Vec::new();
    proof {
        lemma_providers_start(pkgs, map@);
        lemma_heads_start(pkgs, map@);
    }
    let mut i: usize = 0;
    while i < packages.len()
        invariant
            pkgs == packages@,
            i <= pkgs.len(),
            providers_indexed(pkgs, map@, i as int, 0),
            heads_first(pkgs, map@, i as int, 0),
            duplicates_so_far(pkgs, dups@, i as int, 0),
        decreases pkgs.len() - i,
    {
        let provides = &packages[i].provides;
        let mut k: usize = 0;
        while k < provides.len()
            invariant
                pkgs == packages@,
                i < pkgs.len(),
                provides == pkgs[i as int].provides,
                k <= provides@.len(),
                providers_indexed(pkgs, map@, i as int, k as int),
                heads_first(pkgs, map@, i as int, k as int),
                duplicates_so_far(pkgs, dups@, i as int, k as int),
            decreases provides@.len() - k,
        {
            let h = provides[k].name_hash.0;
            let ghost before = map@;
            let ghost dups_before = dups@;
            proof {
                lemma_head_is_first_provider(pkgs, before, i as int, k as int, h);
            }
            let list = match fx_remove(&mut map, h) {
                Some(mut list) => {
                    dups.push(DuplicateProvision { package: PackageIndex(i), provided: k, first_provider: list.first() });
                    proof {
                        let v = choose|v: int| #[trigger] provided_so_far(pkgs, h, v, i as int, k as int);
                        assert(is_repeated_provision(pkgs, i as int, k as int));
                        assert(reports_duplicate(pkgs, dups@.last()));
                    }
                    list.add_provider(PackageIndex(i));
                    list
                },
                None => ProviderList::new(PackageIndex(i)),
            };
            let ghost added = list;
            fx_insert(&mut map, h, list);
            proof {
                assert(map@ == before.insert(h, added));
                lemma_provider_added(pkgs, before, map@, added, i as int, k as int);
                lemma_heads_added(pkgs, before, map@, added, i as int, k as int);
                assert forall|t: int| 0 <= t < dups@.len() implies #[trigger] reports_duplicate(pkgs, dups@[t])
                    && provision_before(dups@[t].package.0 as int, dups@[t].provided as int, i as int, k + 1) by {
                    if t < dups_before.len() {
                        assert(dups@[t] == dups_before[t]);
                    }
                }
                assert forall|t1: int, t2: int| 0 <= t1 < t2 < dups@.len() implies provision_before(
                    #[trigger] dups@[t1].package.0 as int, dups@[t1].provided as int,
                    #[trigger] dups@[t2].package.0 as int, dups@[t2].provided as int,
                ) by {
                    assert(dups@[t1] == dups_before[t1]);
                    assert(reports_duplicate(pkgs, dups_before[t1]));
                    if t2 < dups_before.len() {
                        assert(dups@[t2] == dups_before[t2]);
                    }
                }
                assert forall|j: int, k2: int| #[trigger] is_repeated_provision(pkgs, j, k2)
                    && provision_before(j, k2, i as int, k + 1)
                    implies exists|t: int| 0 <= t < dups@.len() && #[trigger] dups@[t].package.0 == j && dups@[t].provided == k2 by {
                    if provision_before(j, k2, i as int, k as int) {
                        let t = choose|t: int| 0 <= t < dups_before.len() && #[trigger] dups_before[t].package.0 == j
                            && dups_before[t].provided == k2;
                        assert(dups@[t] == dups_before[t]);
                    } else {
                        assert(j == i && k2 == k);
                        let v = choose|v: int| #[trigger] provided_so_far(pkgs, h, v, i as int, k as int);
                        assert(before.contains_key(h));
                        let t = dups_before.len() as int;
                        assert(dups@[t].package.0 == j && dups@[t].provided == k2);
                    }
                }
            }
            k += 1;
        }
        proof {
            lemma_provider_package_done(pkgs, map@, i as int);
            lemma_heads_package_done(pkgs, map@, i as int);
            let plen = provides@.len() as int;
            assert forall|t: int| 0 <= t < dups@.len() implies #[trigger] reports_duplicate(pkgs, dups@[t])
                && provision_before(dups@[t].package.0 as int, dups@[t].provided as int, i + 1, 0) by {
                assert(reports_duplicate(pkgs, dups@[t]));
                assert(provision_before(dups@[t].package.0 as int, dups@[t].provided as int, i as int, plen));
            }
            assert forall|j: int, k2: int| #[trigger] is_repeated_provision(pkgs, j, k2) && provision_before(j, k2, i + 1, 0)
                implies exists|t: int| 0 <= t < dups@.len() && #[trigger] dups@[t].package.0 == j && dups@[t].provided == k2 by {
                assert(provision_before(j, k2, i as int, plen));
            }
        }
        i += 1;
    }
    proof {
        lemma_providers_done(pkgs, map@);
    }
    (map, dups)
}

/// Reports the virtual packages provided more than once, as the analyzer
/// warns of them: in order, exactly the entries of the `provides` lists
/// whose name hash an earlier entry (of the same package or of an earlier
/// one) has already, each with the first package that provides that hash.
pub fn duplicate_provisions(packages: &Vec<PackageInfo>) -> (dups: Vec<DuplicateProvision>)
    ensures
        duplicates_so_far(packages@, dups@, packages@.len() as int, 0),
{
    let (_, dups) = index_providers(packages);
    dups
}

/// Each cached name hash leads to the first package called by that package's name.
spec fn cache_valid(pkgs: Seq<PackageInfo>, cache: Map<u64, PackageIndex>) -> bool {
    forall|h: u64| #[trigger] cache.contains_key(h) ==> is_first_named(pkgs, pkgs[cache[h].0 as int].name@, cache[h].0 as int)
}

/// What a lookup of `d` does to the cache: a cached package of the same name
/// as `d` is taken and the cache stays as it was; otherwise the package
/// called `d`'s name, if there is one, is cached under `d`'s name hash.
spec fn cache_after_lookup(
    pkgs: Seq<PackageInfo>,
    old_cache: Map<u64, PackageIndex>,
    d: Dependency,
    new_cache: Map<u64, PackageIndex>,
) -> bool {
    let h = d.name_hash.0;
    if old_cache.contains_key(h) && pkgs[old_cache[h].0 as int].name@ == d.name@ {
        new_cache == old_cache
    } else if has_named(pkgs, d.name@) {
        exists|j: int| #[trigger] is_first_named(pkgs, d.name@, j) && new_cache == old_cache.insert(h, PackageIndex(j as usize))
    } else {
        new_cache == old_cache
    }
}

/// `d` is a hard or an optional dependency of the package at `u`.
spec fn is_dep_of(pkgs: Seq<PackageInfo>, u: int, d: Dependency) -> bool {
    pkgs[u].depends@.contains(d) || pkgs[u].optdepends@.contains(d)
}

/// What the dependencies of the package at `u` did to the cache: it only
/// grew, and each entry is the one it was, unless a dependency of that
/// package with the entry's name hash names another package than the
/// cached one; then it is the first package of the dependency's name.
spec fn cache_evolves(
    pkgs: Seq<PackageInfo>,
    old_cache: Map<u64, PackageIndex>,
    new_cache: Map<u64, PackageIndex>,
    u: int,
) -> bool {
    &&& forall|h: u64| #[trigger] old_cache.contains_key(h) ==> new_cache.contains_key(h)
    &&& forall|h: u64| #[trigger] new_cache.contains_key(h) ==> {
        ||| old_cache.contains_key(h) && new_cache[h] == old_cache[h]
        ||| exists|d: Dependency| #[trigger] is_dep_of(pkgs, u, d) && d.name_hash.0 == h
            && is_first_named(pkgs, d.name@, new_cache[h].0 as int)
            && (!old_cache.contains_key(h) || pkgs[old_cache[h].0 as int].name@ != d.name@)
    }
}

proof fn lemma_first_named_unique(pkgs: Seq<PackageInfo>, name: Seq<char>, a: int, b: int)
    requires
        is_first_named(pkgs, name, a),
        is_first_named(pkgs, name, b),
    ensures
        a == b,
{
    if a < b {
        assert(pkgs[a].name@ != name);
    } else if b < a {
        assert(pkgs[b].name@ != name);
    }
}

/// One more lookup, for a dependency of the package at `u`, keeps the
/// account of `cache_evolves`.
proof fn lemma_cache_evolves_step(
    pkgs: Seq<PackageInfo>,
    c0: Map<u64, PackageIndex>,
    c1: Map<u64, PackageIndex>,
    c2: Map<u64, PackageIndex>,
    u: int,
    d: Dependency,
)
    requires
        pkgs.len() <= usize::MAX,
        cache_valid(pkgs, c0),
        cache_valid(pkgs, c1),
        cache_evolves(pkgs, c0, c1, u),
        cache_after_lookup(pkgs, c1, d, c2),
        is_dep_of(pkgs, u, d),
    ensures
        cache_evolves(pkgs, c0, c2, u),
{
    let h = d.name_hash.0;
    assert forall|h2: u64| #[trigger] c0.contains_key(h2) implies c2.contains_key(h2) by {
        assert(c1.contains_key(h2));
    }
    assert forall|h2: u64| #[trigger] c2.contains_key(h2) implies {
        ||| c0.contains_key(h2) && c2[h2] == c0[h2]
        ||| exists|d2: Dependency| #[trigger] is_dep_of(pkgs, u, d2) && d2.name_hash.0 == h2
            && is_first_named(pkgs, d2.name@, c2[h2].0 as int)
            && (!c0.contains_key(h2) || pkgs[c0[h2].0 as int].name@ != d2.name@)
    } by {
        if c2 == c1 || h2 != h {
            assert(c1.contains_key(h2) && c2[h2] == c1[h2]);
        } else {
            let j = choose|j: int| #[trigger] is_first_named(pkgs, d.name@, j) && c2 == c1.insert(h, PackageIndex(j as usize));
            assert(c2[h2].0 as int == j);
            if c0.contains_key(h) && pkgs[c0[h].0 as int].name@ == d.name@ {
                lemma_first_named_unique(pkgs, d.name@, c0[h].0 as int, j);
            }
        }
    }
}

/// The search state went from (`disc0`, `s0`) to (`disc1`, `s1`): marks were
/// only added, the stack only grew, each new stack entry is a package that
/// was marked on the way (each once), and every package marked on the way
/// was pushed.
spec fn stack_grows(disc0: Seq<bool>, disc1: Seq<bool>, s0: Seq<PackageIndex>, s1: Seq<PackageIndex>) -> bool {
    &&& disc1.len() == disc0.len()
    &&& forall|i: int| 0 <= i < disc0.len() && #[trigger] disc0[i] ==> disc1[i]
    &&& s1.len() >= s0.len()
    &&& forall|k: int| 0 <= k < s0.len() ==> #[trigger] s1[k] == s0[k]
    &&& forall|k: int| s0.len() <= k < s1.len() ==> 0 <= #[trigger] s1[k].0 < disc0.len()
        && !disc0[s1[k].0 as int] && disc1[s1[k].0 as int]
    &&& forall|j: int, k: int| s0.len() <= j < k < s1.len() ==> #[trigger] s1[j] != #[trigger] s1[k]
    &&& forall|i: int| 0 <= i < disc0.len() && #[trigger] disc1[i] && !disc0[i]
        ==> exists|k: int| s0.len() <= k < s1.len() && #[trigger] s1[k].0 == i
    &&& count_unmarked(disc1) + s1.len() == count_unmarked(disc0) + s0.len()
}

proof fn lemma_stack_grows_refl(disc: Seq<bool>, s: Seq<PackageIndex>)
    ensures
        stack_grows(disc, disc, s, s),
{
}

proof fn lemma_stack_grows_trans(
    d0: Seq<bool>, d1: Seq<bool>, d2: Seq<bool>,
    s0: Seq<PackageIndex>, s1: Seq<PackageIndex>, s2: Seq<PackageIndex>,
)
    requires
        stack_grows(d0, d1, s0, s1),
        stack_grows(d1, d2, s1, s2),
    ensures
        stack_grows(d0, d2, s0, s2),
{
    assert forall|k: int| 0 <= k < s0.len() implies #[trigger] s2[k] == s0[k] by {
        assert(s2[k] == s1[k]);
    }
    assert forall|k: int| s0.len() <= k < s2.len() implies 0 <= #[trigger] s2[k].0 < d0.len()
        && !d0[s2[k].0 as int] && d2[s2[k].0 as int] by {
        if k < s1.len() {
            assert(s2[k] == s1[k]);
            assert(d1[s1[k].0 as int]);
        } else {
            assert(!d1[s2[k].0 as int]);
        }
    }
    assert forall|j: int, k: int| s0.len() <= j < k < s2.len() implies #[trigger] s2[j] != #[trigger] s2[k] by {
        if k < s1.len() {
            assert(s2[j] == s1[j] && s2[k] == s1[k]);
        } else if j < s1.len() {
            assert(s2[j] == s1[j]);
            assert(d1[s1[j].0 as int]);
            assert(!d1[s2[k].0 as int]);
        }
    }
    assert forall|i: int| 0 <= i < d0.len() && #[trigger] d2[i] && !d0[i]
        implies exists|k: int| s0.len() <= k < s2.len() && #[trigger] s2[k].0 == i by {
        if d1[i] {
            let k = choose|k: int| s0.len() <= k < s1.len() && #[trigger] s1[k].0 == i;
            assert(s2[k] == s1[k]);
        } else {
            let k = choose|k: int| s1.len() <= k < s2.len() && #[trigger] s2[k].0 == i;
        }
    }
}

/// Marks the package at `v` and pushes it, unless it was marked already.
fn visit(discovered: &mut Vec<bool>, stack: &mut Vec<PackageIndex>, v: PackageIndex)
    requires
        v.0 < old(discovered)@.len(),
    ensures
        stack_grows(old(discovered)@, final(discovered)@, old(stack)@, final(stack)@),
        final(discovered)@[v.0 as int],
        forall|i: int| 0 <= i < old(discovered)@.len() && #[trigger] final(discovered)@[i]
            && !old(discovered)@[i] ==> i == v.0,
{
    if !discovered[v.0] {
        proof {
            lemma_mark_one(discovered@, v.0 as int);
        }
        let ghost s0 = stack@;
        discovered.set(v.0, true);
        stack.push(v);
        assert(stack@[s0.len() as int].0 == v.0);
    }
}

/// The package that a dependency names, found through a cache keyed by the
/// dependency's name hash. A cached package whose name differs from the
/// dependency's (two names with one hash) is not taken.
fn lookup_cached(packages: &Vec<PackageInfo>, cache: &mut FxHashMap<u64, PackageIndex>, dep: &Dependency)
    -> (found: Option<PackageIndex>)
    requires
        cache_valid(packages@, old(cache)@),
    ensures
        cache_valid(packages@, final(cache)@),
        cache_after_lookup(packages@, old(cache)@, *dep, final(cache)@),
        match found {
            Some(j) => is_first_named(packages@, dep.name@, j.0 as int),
            None => !has_named(packages@, dep.name@),
        },
{
    let h = dep.name_hash.0;
    let cached = match fx_get(cache, h) {
        Some(j) => {
            let j = *j;
            if packages[j.0].name == dep.name {
                Some(j)
            } else {
                None
            }
        },
        None => None,
    };
    match cached {
        Some(j) => Some(j),
        None => {
            let ghost before = cache@;
            let found = find_package(packages, &dep.name);
            if let Some(j) = found {
                fx_insert(cache, h, j);
                assert(packages@[j.0 as int].name@ == dep.name@);
                assert(is_first_named(packages@, dep.name@, j.0 as int));
                assert(cache@ == before.insert(h, PackageIndex((j.0 as int) as usize)));
            }
            found
        },
    }
}

/// Marks and pushes every package that satisfies `dep`; tells whether any does.
fn visit_targets(
    packages: &Vec<PackageInfo>,
    providers: &FxHashMap<u64, ProviderList>,
    cache: &mut FxHashMap<u64, PackageIndex>,
    dep: &Dependency,
    discovered: &mut Vec<bool>,
    stack: &mut Vec<PackageIndex>,
) -> (resolved: bool)
    requires
        providers_complete(packages@, providers@),
        cache_valid(packages@, old(cache)@),
        old(discovered)@.len() == packages@.len(),
    ensures
        cache_valid(packages@, final(cache)@),
        cache_after_lookup(packages@, old(cache)@, *dep, final(cache)@),
        stack_grows(old(discovered)@, final(discovered)@, old(stack)@, final(stack)@),
        forall|i: int| 0 <= i < packages@.len() && #[trigger] final(discovered)@[i] && !old(discovered)@[i]
            ==> resolves_to(packages@, *dep, i),
        forall|v: int| #[trigger] resolves_to(packages@, *dep, v) ==> final(discovered)@[v],
        resolved == is_resolvable(packages@, *dep),
{
    let ghost pkgs = packages@;
    let ghost d0 = discovered@;
    let ghost s0 = stack@;
    match lookup_cached(packages, cache, dep) {
        Some(j) => {
            visit(discovered, stack, j);
            assert forall|v: int| #[trigger] resolves_to(pkgs, *dep, v) implies discovered@[v] by {
                assert(is_named(pkgs, dep.name@, j.0 as int));
                if v != j.0 {
                    if v < j.0 {
                        assert(pkgs[v].name@ != dep.name@);
                    } else {
                        assert(pkgs[j.0 as int].name@ != dep.name@);
                    }
                }
            }
            assert(is_named(pkgs, dep.name@, j.0 as int));
            true
        },
        None => {
            let h = dep.name_hash.0;
            match fx_get(providers, h) {
                Some(list) => {
                    let ps = list.iter();
                    let mut idx: usize = 0;
                    while idx < ps.len()
                        invariant
                            pkgs == packages@,
                            !has_named(pkgs, dep.name@),
                            h == dep.name_hash.0,
                            providers_complete(pkgs, providers@),
                            providers@.contains_key(h),
                            ps@ == providers@[h]@,
                            idx <= ps@.len(),
                            d0.len() == pkgs.len(),
                            stack_grows(d0, discovered@, s0, stack@),
                            forall|i: int| 0 <= i < pkgs.len() && #[trigger] discovered@[i] && !d0[i]
                                ==> is_provider(pkgs, h, i),
                            forall|t: int| 0 <= t < idx ==> discovered@[#[trigger] ps@[t].0 as int],
                        decreases ps@.len() - idx,
                    {
                        let p = ps[idx];
                        assert(is_provider(pkgs, h, ps@[idx as int].0 as int));
                        let ghost d1 = discovered@;
                        let ghost s1 = stack@;
                        visit(discovered, stack, p);
                        proof {
                            lemma_stack_grows_trans(d0, d1, discovered@, s0, s1, stack@);
                        }
                        idx += 1;
                    }
                    assert forall|v: int| #[trigger] resolves_to(pkgs, *dep, v) implies discovered@[v] by {
                        assert(is_provider(pkgs, h, v));
                        assert(providers@[h]@.contains(PackageIndex(v as usize)));
                        assert(v < packages.len());
                        let t = choose|t: int| 0 <= t < ps@.len() && ps@[t] == PackageIndex(v as usize);
                        assert(discovered@[ps@[t].0 as int]);
                    }
                    proof {
                        let v = ps@[0].0 as int;
                        list.lemma_nonempty();
                        assert(is_provider(pkgs, h, v));
                    }
                    true
                },
                None => {
                    proof {
                        lemma_stack_grows_refl(d0, s0);
                    }
                    assert forall|v: int| !#[trigger] is_provider(pkgs, h, v) by {}
                    false
                },
            }
        },
    }
}


/// Marks and pushes every package that the package at `u` requires, by
/// a hard or an optional dependency. A hard dependency that nothing
/// satisfies stops the work with an error.
fn push_dependencies(
    packages: &Vec<PackageInfo>,
    providers: &FxHashMap<u64, ProviderList>,
    cache: &mut FxHashMap<u64, PackageIndex>,
    discovered: &mut Vec<bool>,
    stack: &mut Vec<PackageIndex>,
    u: usize,
) -> (result: Result<(), MissingDependency>)
    requires
        u < packages@.len(),
        providers_complete(packages@, providers@),
        cache_valid(packages@, old(cache)@),
        old(discovered)@.len() == packages@.len(),
    ensures
        cache_valid(packages@, final(cache)@),
        cache_evolves(packages@, old(cache)@, final(cache)@, u as int),
        stack_grows(old(discovered)@, final(discovered)@, old(stack)@, final(stack)@),
        forall|i: int| 0 <= i < packages@.len() && #[trigger] final(discovered)@[i] && !old(discovered)@[i]
            ==> depends_on(packages@, u as int, i),
        match result {
            Ok(()) => hard_deps_resolvable(packages@, u as int)
                && forall|v: int| #[trigger] depends_on(packages@, u as int, v) ==> final(discovered)@[v],
            Err(e) => e.package.0 == u && e.dependency < packages@[u as int].depends@.len()
                && !is_resolvable(packages@, packages@[u as int].depends@[e.dependency as int]),
        },
{
    let ghost pkgs = packages@;
    let ghost d0 = discovered@;
    let ghost s0 = stack@;
    let ghost c0 = cache@;
    assert(pkgs.len() == packages.len());
    let pkg = &packages[u];
    let mut k: usize = 0;
    while k < pkg.depends.len()
        invariant
            pkgs == packages@,
            u < pkgs.len(),
            *pkg == pkgs[u as int],
            k <= pkg.depends@.len(),
            providers_complete(pkgs, providers@),
            cache_valid(pkgs, cache@),
            c0 == old(cache)@,
            cache_valid(pkgs, c0),
            cache_evolves(pkgs, c0, cache@, u as int),
            pkgs.len() <= usize::MAX,
            d0.len() == pkgs.len(),
            d0 == old(discovered)@,
            s0 == old(stack)@,
            stack_grows(d0, discovered@, s0, stack@),
            forall|i: int| 0 <= i < pkgs.len() && #[trigger] discovered@[i] && !d0[i] ==> depends_on(pkgs, u as int, i),
            forall|k2: int| 0 <= k2 < k ==> #[trigger] is_resolvable(pkgs, pkg.depends@[k2]),
            forall|k2: int, v: int| 0 <= k2 < k && #[trigger] resolves_to(pkgs, pkg.depends@[k2], v) ==> discovered@[v],
        decreases pkg.depends@.len() - k,
    {
        let ghost d1 = discovered@;
        let ghost s1 = stack@;
        let dep = &pkg.depends[k];
        let ghost c1 = cache@;
        let resolved = visit_targets(packages, providers, cache, dep, discovered, stack);
        proof {
            assert(pkgs[u as int].depends@[k as int] == *dep);
            assert(is_dep_of(pkgs, u as int, *dep));
            lemma_cache_evolves_step(pkgs, c0, c1, cache@, u as int, *dep);
            lemma_stack_grows_trans(d0, d1, discovered@, s0, s1, stack@);
            assert forall|i: int| 0 <= i < pkgs.len() && #[trigger] discovered@[i] && !d0[i]
                implies depends_on(pkgs, u as int, i) by {
                if !d1[i] {
                    assert(resolves_to(pkgs, pkg.depends@[k as int], i));
                }
            }
            assert forall|k2: int, v: int| 0 <= k2 < k + 1 && #[trigger] resolves_to(pkgs, pkg.depends@[k2], v)
                implies discovered@[v] by {
                if k2 < k {
                    assert(d1[v]);
                }
            }
        }
        if !resolved {
            return Err(MissingDependency { package: PackageIndex(u), dependency: k });
        }
        k += 1;
    }
    let mut k: usize = 0;
    while k < pkg.optdepends.len()
        invariant
            pkgs == packages@,
            u < pkgs.len(),
            *pkg == pkgs[u as int],
            k <= pkg.optdepends@.len(),
            providers_complete(pkgs, providers@),
            cache_valid(pkgs, cache@),
            c0 == old(cache)@,
            cache_valid(pkgs, c0),
            cache_evolves(pkgs, c0, cache@, u as int),
            pkgs.len() <= usize::MAX,
            d0.len() == pkgs.len(),
            stack_grows(d0, discovered@, s0, stack@),
            forall|i: int| 0 <= i < pkgs.len() && #[trigger] discovered@[i] && !d0[i] ==> depends_on(pkgs, u as int, i),
            hard_deps_resolvable(pkgs, u as int),
            forall|k2: int, v: int| 0 <= k2 < pkg.depends@.len() && #[trigger] resolves_to(pkgs, pkg.depends@[k2], v)
                ==> discovered@[v],
            forall|k2: int, v: int| 0 <= k2 < k && #[trigger] resolves_to(pkgs, pkg.optdepends@[k2], v) ==> discovered@[v],
        decreases pkg.optdepends@.len() - k,
    {
        let ghost d1 = discovered@;
        let ghost s1 = stack@;
        let dep = &pkg.optdepends[k];
        let ghost c1 = cache@;
        let _ = visit_targets(packages, providers, cache, dep, discovered, stack);
        proof {
            assert(pkgs[u as int].optdepends@[k as int] == *dep);
            assert(is_dep_of(pkgs, u as int, *dep));
            lemma_cache_evolves_step(pkgs, c0, c1, cache@, u as int, *dep);
            lemma_stack_grows_trans(d0, d1, discovered@, s0, s1, stack@);
            assert forall|i: int| 0 <= i < pkgs.len() && #[trigger] discovered@[i] && !d0[i]
                implies depends_on(pkgs, u as int, i) by {
                if !d1[i] {
                    assert(resolves_to(pkgs, pkg.optdepends@[k as int], i));
                }
            }
            assert forall|k2: int, v: int| 0 <= k2 < pkg.depends@.len() && #[trigger] resolves_to(pkgs, pkg.depends@[k2], v)
                implies discovered@[v] by {
                assert(d1[v]);
            }
            assert forall|k2: int, v: int| 0 <= k2 < k + 1 && #[trigger] resolves_to(pkgs, pkg.optdepends@[k2], v)
                implies discovered@[v] by {
                if k2 < k {
                    assert(d1[v]);
                }
            }
        }
        k += 1;
    }
    Ok(())
}


/// The search state between two steps: every marked package is needed,
/// and every marked package that does not wait on the stack has had its
/// dependencies marked and has no unsatisfied hard dependency.
spec fn search_state(pkgs: Seq<PackageInfo>, discovered: Seq<bool>, stack: Seq<PackageIndex>) -> bool {
    &&& discovered.len() == pkgs.len()
    &&& forall|k: int| 0 <= k < stack.len() ==> 0 <= #[trigger] stack[k].0 < pkgs.len() && discovered[stack[k].0 as int]
    &&& forall|j: int, k: int| 0 <= j < k < stack.len() ==> #[trigger] stack[j] != #[trigger] stack[k]
    &&& forall|i: int| 0 <= i < pkgs.len() && #[trigger] discovered[i] ==> needed(pkgs, i)
    &&& forall|u: int| 0 <= u < pkgs.len() && #[trigger] discovered[u] && !on_stack(stack, u) ==> {
        &&& hard_deps_resolvable(pkgs, u)
        &&& forall|v: int| #[trigger] depends_on(pkgs, u, v) ==> discovered[v]
    }
}

/// After the dependencies of the needed package at `u` were marked and
/// pushed, the search state holds again.
proof fn lemma_expanded(
    pkgs: Seq<PackageInfo>,
    d1: Seq<bool>, s1: Seq<PackageIndex>,
    d2: Seq<bool>, s2: Seq<PackageIndex>,
    u: int,
)
    requires
        0 <= u < pkgs.len(),
        d1.len() == pkgs.len(),
        d1[u],
        needed(pkgs, u),
        !on_stack(s1, u),
        forall|k: int| 0 <= k < s1.len() ==> 0 <= #[trigger] s1[k].0 < pkgs.len() && d1[s1[k].0 as int],
        forall|j: int, k: int| 0 <= j < k < s1.len() ==> #[trigger] s1[j] != #[trigger] s1[k],
        forall|i: int| 0 <= i < pkgs.len() && #[trigger] d1[i] ==> needed(pkgs, i),
        forall|w: int| 0 <= w < pkgs.len() && #[trigger] d1[w] && w != u && !on_stack(s1, w) ==> {
            &&& hard_deps_resolvable(pkgs, w)
            &&& forall|v: int| #[trigger] depends_on(pkgs, w, v) ==> d1[v]
        },
        stack_grows(d1, d2, s1, s2),
        forall|i: int| 0 <= i < pkgs.len() && #[trigger] d2[i] && !d1[i] ==> depends_on(pkgs, u, i),
        hard_deps_resolvable(pkgs, u),
        forall|v: int| #[trigger] depends_on(pkgs, u, v) ==> d2[v],
    ensures
        search_state(pkgs, d2, s2),
{
    assert forall|k: int| 0 <= k < s2.len() implies 0 <= #[trigger] s2[k].0 < pkgs.len() && d2[s2[k].0 as int] by {
        if k < s1.len() {
            assert(s2[k] == s1[k]);
        }
    }
    assert forall|j: int, k: int| 0 <= j < k < s2.len() implies #[trigger] s2[j] != #[trigger] s2[k] by {
        if k < s1.len() {
            assert(s2[j] == s1[j] && s2[k] == s1[k]);
        } else if j < s1.len() {
            assert(s2[j] == s1[j]);
            assert(d1[s1[j].0 as int]);
        }
    }
    assert forall|i: int| 0 <= i < pkgs.len() && #[trigger] d2[i] implies needed(pkgs, i) by {
        if !d1[i] {
            lemma_requirement_of_needed_is_needed(pkgs, u, i);
        }
    }
    assert forall|w: int| 0 <= w < pkgs.len() && #[trigger] d2[w] && !on_stack(s2, w) implies {
        &&& hard_deps_resolvable(pkgs, w)
        &&& forall|v: int| #[trigger] depends_on(pkgs, w, v) ==> d2[v]
    } by {
        if !d1[w] {
            let k = choose|k: int| s1.len() <= k < s2.len() && #[trigger] s2[k].0 == w;
            assert(on_stack(s2, w));
        } else if w != u {
            if on_stack(s1, w) {
                let k = choose|k: int| 0 <= k < s1.len() && #[trigger] s1[k].0 == w;
                assert(s2[k] == s1[k]);
                assert(on_stack(s2, w));
            }
            assert forall|v: int| #[trigger] depends_on(pkgs, w, v) implies d2[v] by {
                assert(d1[v]);
            }
        }
    }
}

/// Finds the needed packages: the explicitly installed ones and, through a
/// depth-first search, everything they require, directly or indirectly, by
/// hard or optional dependencies. `Ok` holds a flag for each package: true
/// exactly when it is needed. `Err` names a needed package and one of its
/// hard dependencies that no installed package satisfies; it comes exactly
/// when some needed package has such a dependency.
pub fn find_needed(packages: &Vec<PackageInfo>) -> (result: Result<Vec<bool>, MissingDependency>)
    ensures
        match result {
            Ok(flags) => {
                &&& flags@.len() == packages@.len()
                &&& forall|i: int| 0 <= i < packages@.len() ==> #[trigger] flags@[i] == needed(packages@, i)
                &&& forall|u: int| #[trigger] needed(packages@, u) ==> hard_deps_resolvable(packages@, u)
            },
            Err(e) => {
                &&& needed(packages@, e.package.0 as int)
                &&& e.dependency < packages@[e.package.0 as int].depends@.len()
                &&& !is_resolvable(packages@, packages@[e.package.0 as int].depends@[e.dependency as int])
            },
        },
{
    let ghost pkgs = packages@;
    let n = packages.len();
    let (providers, _) = index_providers(packages);
    let mut cache: FxHashMap<u64, PackageIndex> = FxHashMap::default();
    cache.reserve(n);
    let mut discovered: Vec<bool> = Vec::new();
    while discovered.len() < n
        invariant
            discovered@.len() <= n,
            forall|i: int| 0 <= i < discovered@.len() ==> !#[trigger] discovered@[i],
        decreases n - discovered@.len(),
    {
        discovered.push(false);
    }
    let mut stack: Vec<PackageIndex> = Vec::new();
    let mut pos: usize = 0;
    while pos < n
        invariant
            pkgs == packages@,
            n == pkgs.len(),
            pos <= n,
            providers_complete(pkgs, providers@),
            cache_valid(pkgs, cache@),
            stack@.len() == 0,
            search_state(pkgs, discovered@, stack@),
            forall|i: int| 0 <= i < pos && is_explicit(#[trigger] pkgs[i]) ==> discovered@[i],
        decreases n - pos,
    {
        let explicit = match packages[pos].reason {
            InstallReason::Explicit => true,
            InstallReason::Depend => false,
        };
        if !discovered[pos] && explicit {
            // An explicitly installed package not visited yet.
            proof {
                lemma_explicit_is_needed(pkgs, pos as int);
            }
            let ghost d_before = discovered@;
            discovered.set(pos, true);
            let ghost d1 = discovered@;
            assert forall|i: int| 0 <= i <= pos && is_explicit(#[trigger] pkgs[i]) implies d1[i] by {
                if i < pos {
                    assert(d_before[i]);
                }
            }
            let ghost s1 = stack@;
            match push_dependencies(packages, &providers, &mut cache, &mut discovered, &mut stack, pos) {
                Ok(()) => {},
                Err(e) => {
                    return Err(e);
                },
            }
            proof {
                lemma_expanded(pkgs, d1, s1, discovered@, stack@, pos as int);
                assert forall|i: int| 0 <= i <= pos && is_explicit(#[trigger] pkgs[i]) implies discovered@[i] by {
                    assert(d1[i]);
                }
            }
            loop
                invariant
                    pkgs == packages@,
                    n == pkgs.len(),
                    pos < n,
                    providers_complete(pkgs, providers@),
                    cache_valid(pkgs, cache@),
                    search_state(pkgs, discovered@, stack@),
                    forall|i: int| 0 <= i <= pos && is_explicit(#[trigger] pkgs[i]) ==> discovered@[i],
                ensures
                    stack@.len() == 0,
                decreases count_unmarked(discovered@) + stack@.len(),
            {
                let ghost s0 = stack@;
                match stack.pop() {
                    Some(w) => {
                        assert(s0 =~= stack@.push(w));
                        let ghost d1 = discovered@;
                        let ghost s1 = stack@;
                        assert(s1 =~= s0.drop_last());
                        assert(!on_stack(s1, w.0 as int)) by {
                            if on_stack(s1, w.0 as int) {
                                let k = choose|k: int| 0 <= k < s1.len() && #[trigger] s1[k].0 == w.0 as int;
                                assert(s0[k] == s1[k]);
                                assert(s0[s1.len() as int] == w);
                            }
                        }
                        assert(d1[w.0 as int] && 0 <= w.0 < n) by {
                            assert(s0[s1.len() as int] == w);
                        }
                        assert forall|x: int| 0 <= x < pkgs.len() && #[trigger] d1[x] && x != w.0 && !on_stack(s1, x) implies {
                            &&& hard_deps_resolvable(pkgs, x)
                            &&& forall|v: int| #[trigger] depends_on(pkgs, x, v) ==> d1[v]
                        } by {
                            if on_stack(s0, x) {
                                let k = choose|k: int| 0 <= k < s0.len() && #[trigger] s0[k].0 == x;
                                if k < s1.len() {
                                    assert(s1[k] == s0[k]);
                                    assert(on_stack(s1, x));
                                } else {
                                    assert(s0[s1.len() as int] == w);
                                }
                            }
                            assert(!on_stack(s0, x));
                        }
                        match push_dependencies(packages, &providers, &mut cache, &mut discovered, &mut stack, w.0) {
                            Ok(()) => {},
                            Err(e) => {
                                return Err(e);
                            },
                        }
                        proof {
                            lemma_expanded(pkgs, d1, s1, discovered@, stack@, w.0 as int);
                        }
                    },
                    None => {
                        break;
                    },
                }
            }
        }
        pos += 1;
    }
    proof {
        let keep = |i: int| 0 <= i < pkgs.len() && discovered@[i];
        assert forall|u: int| #[trigger] needed(pkgs, u) implies discovered@[u] && 0 <= u < pkgs.len() by {
            assert forall|x: int| 0 <= x < pkgs.len() && is_explicit(pkgs[x]) implies #[trigger] keep(x) by {
                assert(is_explicit(pkgs[x]));
            }
            assert forall|x: int, y: int| #[trigger] keep(x) && #[trigger] depends_on(pkgs, x, y) implies keep(y) by {
                assert(!on_stack(stack@, x));
                assert(discovered@[y]);
            }
            lemma_needed_is_least(pkgs, keep, u);
        }
        assert forall|u: int| #[trigger] needed(pkgs, u) implies hard_deps_resolvable(pkgs, u) by {
            assert(!on_stack(stack@, u));
            assert(discovered@[u]);
        }
    }
    Ok(discovered)
}


/// The names of the packages that are not needed, in list order: what
/// the analyzer prints. The error is that of `find_needed`.
pub fn unneeded_names(packages: &Vec<PackageInfo>) -> (result: Result<Vec<String>, MissingDependency>)
    ensures
        match result {
            Ok(names) => {
                &&& names@.map_values(|s: String| s@) == unneeded_names_spec(packages@)
                &&& names@.len() == left_out_before(|v: int| needed(packages@, v), packages@.len() as int).len()
                &&& forall|v: int| #![trigger packages@[v]] 0 <= v < packages@.len() && !needed(packages@, v) ==> {
                    &&& left_out_before(|w: int| needed(packages@, w), v).len() < names@.len()
                    &&& names@[left_out_before(|w: int| needed(packages@, w), v).len() as int]@ == packages@[v].name@
                }
                &&& forall|u: int| #[trigger] needed(packages@, u) ==> hard_deps_resolvable(packages@, u)
            },
            Err(e) => {
                &&& needed(packages@, e.package.0 as int)
                &&& e.dependency < packages@[e.package.0 as int].depends@.len()
                &&& !is_resolvable(packages@, packages@[e.package.0 as int].depends@[e.dependency as int])
            },
        },
{
    match find_needed(packages) {
        Ok(flags) => {
            let names = names_where_unset(packages, &flags);
            proof {
                lemma_names_not_kept_agree(
                    packages@,
                    |v: int| flags@[v],
                    |v: int| needed(packages@, v),
                    packages@.len() as int,
                );
                let keep = |w: int| needed(packages@, w);
                lemma_names_not_kept_ranks(packages@, keep, packages@.len() as int);
                let shown = names@.map_values(|s: String| s@);
                assert forall|v: int| #![trigger packages@[v]] 0 <= v < packages@.len() && !needed(packages@, v) implies {
                    &&& left_out_before(|w: int| needed(packages@, w), v).len() < names@.len()
                    &&& names@[left_out_before(|w: int| needed(packages@, w), v).len() as int]@ == packages@[v].name@
                } by {
                    assert(left_out_before(|w: int| needed(packages@, w), v) == left_out_before(keep, v));
                    assert(!keep(v));
                    assert(shown[left_out_before(keep, v).len() as int] == names@[left_out_before(keep, v).len() as int]@);
                }
                assert(left_out_before(|w: int| needed(packages@, w), packages@.len() as int)
                    == left_out_before(keep, packages@.len() as int));
            }
            Ok(names)
        },
        Err(e) => Err(e),
    }
}

} // verus!
