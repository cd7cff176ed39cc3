//! What a map from name hashes to provider lists must hold while it is
//! built, package by package, and once it is complete.

use vstd::prelude::*;
use crate::common::{PackageIndex, ProviderList};
use crate::model::{PackageInfo, is_provider};

verus! {

/// The package at `v` provides `h` and comes before the package at `i`, or
/// it is the package at `i` and one of its first `k` provided virtual
/// packages has the name hash `h`.
pub open spec fn provided_so_far(pkgs: Seq<PackageInfo>, h: u64, v: int, i: int, k: int) -> bool {
    ||| 0 <= v < i && is_provider(pkgs, h, v)
    ||| v == i && 0 <= i < pkgs.len() && exists|k2: int|
        0 <= k2 < k && k2 < pkgs[i].provides.len() && #[trigger] pkgs[i].provides@[k2].name_hash.0 == h
}

/// `map` lists, under each name hash, exactly the packages that provide
/// it among those counted by `provided_so_far`.
pub open spec fn providers_indexed(pkgs: Seq<PackageInfo>, map: Map<u64, ProviderList>, i: int, k: int) -> bool {
    &&& forall|h: u64, v: int| #[trigger] provided_so_far(pkgs, h, v, i, k)
        ==> map.contains_key(h) && map[h]@.contains(PackageIndex(v as usize))
    &&& forall|h: u64, j: int| map.contains_key(h) && 0 <= j < map[h]@.len()
        ==> provided_so_far(pkgs, h, #[trigger] map[h]@[j].0 as int, i, k)
}

/// `map` lists, under each name hash, exactly the packages that provide it.
pub open spec fn providers_complete(pkgs: Seq<PackageInfo>, map: Map<u64, ProviderList>) -> bool {
    &&& forall|h: u64, v: int| #[trigger] is_provider(pkgs, h, v)
        ==> map.contains_key(h) && map[h]@.contains(PackageIndex(v as usize))
    &&& forall|h: u64, j: int| map.contains_key(h) && 0 <= j < map[h]@.len()
        ==> is_provider(pkgs, h, #[trigger] map[h]@[j].0 as int)
}

/// Nothing is indexed before the first package.
pub proof fn lemma_providers_start(pkgs: Seq<PackageInfo>, map: Map<u64, ProviderList>)
    requires
        map == Map::<u64, ProviderList>::empty(),
    ensures
        providers_indexed(pkgs, map, 0, 0),
{
}

/// Appending the package at `i` to the list of the `k`-th name hash it
/// provides indexes that provision.
pub proof fn lemma_provider_added(
    pkgs: Seq<PackageInfo>,
    before: Map<u64, ProviderList>,
    after: Map<u64, ProviderList>,
    list: ProviderList,
    i: int,
    k: int,
)
    requires
        0 <= i < pkgs.len(),
        i <= usize::MAX,
        0 <= k < pkgs[i].provides.len(),
        providers_indexed(pkgs, before, i, k),
        after == before.insert(pkgs[i].provides@[k].name_hash.0, list),
        list@ == (if before.contains_key(pkgs[i].provides@[k].name_hash.0) {
            before[pkgs[i].provides@[k].name_hash.0]@
        } else {
            Seq::empty()
        }).push(PackageIndex(i as usize)),
    ensures
        providers_indexed(pkgs, after, i, k + 1),
{
    let h = pkgs[i].provides@[k].name_hash.0;
    assert forall|h2: u64, v: int| #[trigger] provided_so_far(pkgs, h2, v, i, k + 1)
        implies after.contains_key(h2) && after[h2]@.contains(PackageIndex(v as usize)) by {
        if h2 == h && v == i {
            assert(after[h2]@.last() == PackageIndex(i as usize));
        } else if provided_so_far(pkgs, h2, v, i, k) {
            let j = choose|j: int| 0 <= j < before[h2]@.len() && before[h2]@[j] == PackageIndex(v as usize);
            if h2 == h {
                assert(after[h2]@[j] == before[h2]@[j]);
            }
        } else {
            let k2 = choose|k2: int| 0 <= k2 < k + 1 && k2 < pkgs[i].provides.len()
                && #[trigger] pkgs[i].provides@[k2].name_hash.0 == h2;
            assert(k2 == k);
        }
    }
    assert forall|h2: u64, j: int| after.contains_key(h2) && 0 <= j < after[h2]@.len()
        implies provided_so_far(pkgs, h2, #[trigger] after[h2]@[j].0 as int, i, k + 1) by {
        let v = after[h2]@[j].0 as int;
        if h2 == h && v == i {
            assert(pkgs[i].provides@[k].name_hash.0 == h2);
        } else if h2 == h && before.contains_key(h) {
            assert(j < before[h2]@.len());
            assert(provided_so_far(pkgs, h2, before[h2]@[j].0 as int, i, k));
        } else if h2 != h {
            assert(provided_so_far(pkgs, h2, before[h2]@[j].0 as int, i, k));
        }
    }
}

/// Once all the provisions of the package at `i` are indexed, the next
/// package can start.
pub proof fn lemma_provider_package_done(pkgs: Seq<PackageInfo>, map: Map<u64, ProviderList>, i: int)
    requires
        0 <= i < pkgs.len(),
        providers_indexed(pkgs, map, i, pkgs[i].provides.len() as int),
    ensures
        providers_indexed(pkgs, map, i + 1, 0),
{
    let plen = pkgs[i].provides.len() as int;
    assert forall|h: u64, v: int| provided_so_far(pkgs, h, v, i, plen)
        == provided_so_far(pkgs, h, v, i + 1, 0) by {
        if v == i && is_provider(pkgs, h, v) {
            let k2 = choose|k2: int| 0 <= k2 < pkgs[v].provides.len() && #[trigger] pkgs[v].provides@[k2].name_hash.0 == h;
            assert(pkgs[i].provides@[k2].name_hash.0 == h);
        }
    }
    assert forall|h: u64, v: int| #[trigger] provided_so_far(pkgs, h, v, i + 1, 0)
        implies map.contains_key(h) && map[h]@.contains(PackageIndex(v as usize)) by {
        assert(provided_so_far(pkgs, h, v, i, plen));
    }
    assert forall|h: u64, j: int| map.contains_key(h) && 0 <= j < map[h]@.len()
        implies provided_so_far(pkgs, h, #[trigger] map[h]@[j].0 as int, i + 1, 0) by {
        assert(provided_so_far(pkgs, h, map[h]@[j].0 as int, i, plen));
    }
}

/// With every package indexed, the map is complete.
pub proof fn lemma_providers_done(pkgs: Seq<PackageInfo>, map: Map<u64, ProviderList>)
    requires
        providers_indexed(pkgs, map, pkgs.len() as int, 0),
    ensures
        providers_complete(pkgs, map),
{
    assert forall|h: u64, v: int| provided_so_far(pkgs, h, v, pkgs.len() as int, 0) == is_provider(pkgs, h, v) by {}
}

/// In `map`, the first package of each list comes before every other
/// package counted by `provided_so_far` for that name hash.
pub open spec fn heads_first(pkgs: Seq<PackageInfo>, map: Map<u64, ProviderList>, i: int, k: int) -> bool {
    forall|h: u64, v: int|
        #![trigger map.contains_key(h), provided_so_far(pkgs, h, v, i, k)]
        map.contains_key(h) && 0 <= v < map[h]@[0].0 ==> !provided_so_far(pkgs, h, v, i, k)
}

/// The package at `f` is the first one that provides the name hash `h`.
pub open spec fn is_first_provider(pkgs: Seq<PackageInfo>, h: u64, f: int) -> bool {
    &&& is_provider(pkgs, h, f)
    &&& forall|v: int| 0 <= v < f ==> !#[trigger] is_provider(pkgs, h, v)
}

/// The `k`-th entry of the `provides` list of the package at `j` has a
/// name hash that an earlier entry, of this package or of an earlier one,
/// has already.
pub open spec fn is_repeated_provision(pkgs: Seq<PackageInfo>, j: int, k: int) -> bool {
    &&& 0 <= j < pkgs.len()
    &&& 0 <= k < pkgs[j].provides.len()
    &&& exists|v: int| #[trigger] provided_so_far(pkgs, pkgs[j].provides@[k].name_hash.0, v, j, k)
}

pub proof fn lemma_heads_start(pkgs: Seq<PackageInfo>, map: Map<u64, ProviderList>)
    requires
        map == Map::<u64, ProviderList>::empty(),
    ensures
        heads_first(pkgs, map, 0, 0),
{
}

/// Appending a provider keeps the first package of each list first.
pub proof fn lemma_heads_added(
    pkgs: Seq<PackageInfo>,
    before: Map<u64, ProviderList>,
    after: Map<u64, ProviderList>,
    list: ProviderList,
    i: int,
    k: int,
)
    requires
        0 <= i < pkgs.len(),
        i <= usize::MAX,
        0 <= k < pkgs[i].provides.len(),
        providers_indexed(pkgs, before, i, k),
        heads_first(pkgs, before, i, k),
        after == before.insert(pkgs[i].provides@[k].name_hash.0, list),
        list@ == (if before.contains_key(pkgs[i].provides@[k].name_hash.0) {
            before[pkgs[i].provides@[k].name_hash.0]@
        } else {
            Seq::empty()
        }).push(PackageIndex(i as usize)),
    ensures
        heads_first(pkgs, after, i, k + 1),
{
    let h = pkgs[i].provides@[k].name_hash.0;
    if before.contains_key(h) {
        before[h].lemma_nonempty();
        assert(after[h]@[0] == before[h]@[0]);
        assert(provided_so_far(pkgs, h, before[h]@[0].0 as int, i, k));
    }
    assert forall|h2: u64, v: int| after.contains_key(h2) && 0 <= v < after[h2]@[0].0
        implies !#[trigger] provided_so_far(pkgs, h2, v, i, k + 1) by {
        if h2 == h {
            if before.contains_key(h) {
                assert(!provided_so_far(pkgs, h2, v, i, k));
            } else {
                if provided_so_far(pkgs, h2, v, i, k) {
                    assert(before.contains_key(h2));
                }
            }
        } else {
            assert(!provided_so_far(pkgs, h2, v, i, k));
            if provided_so_far(pkgs, h2, v, i, k + 1) {
                let k2 = choose|k2: int| 0 <= k2 < k + 1 && k2 < pkgs[i].provides.len()
                    && #[trigger] pkgs[i].provides@[k2].name_hash.0 == h2;
                assert(k2 != k);
                assert(provided_so_far(pkgs, h2, v, i, k));
            }
        }
    }
}

/// Passing on to the next package keeps the first package of each list first.
pub proof fn lemma_heads_package_done(pkgs: Seq<PackageInfo>, map: Map<u64, ProviderList>, i: int)
    requires
        0 <= i < pkgs.len(),
        heads_first(pkgs, map, i, pkgs[i].provides.len() as int),
    ensures
        heads_first(pkgs, map, i + 1, 0),
{
    let plen = pkgs[i].provides.len() as int;
    assert forall|h: u64, v: int| map.contains_key(h) && 0 <= v < map[h]@[0].0
        implies !#[trigger] provided_so_far(pkgs, h, v, i + 1, 0) by {
        assert(!provided_so_far(pkgs, h, v, i, plen));
        if v == i && is_provider(pkgs, h, v) {
            let k2 = choose|k2: int| 0 <= k2 < pkgs[v].provides.len() && #[trigger] pkgs[v].provides@[k2].name_hash.0 == h;
            assert(pkgs[i].provides@[k2].name_hash.0 == h);
        }
    }
}

/// While the map is built, it holds a name hash exactly when an earlier
/// provision has that hash, and the first package of its list is the
/// first package that provides it.
pub proof fn lemma_head_is_first_provider(
    pkgs: Seq<PackageInfo>,
    map: Map<u64, ProviderList>,
    i: int,
    k: int,
    h: u64,
)
    requires
        0 <= i < pkgs.len(),
        i <= usize::MAX,
        0 <= k <= pkgs[i].provides.len(),
        providers_indexed(pkgs, map, i, k),
        heads_first(pkgs, map, i, k),
    ensures
        map.contains_key(h) <==> exists|v: int| #[trigger] provided_so_far(pkgs, h, v, i, k),
        map.contains_key(h) ==> is_first_provider(pkgs, h, map[h]@[0].0 as int),
{
    if map.contains_key(h) {
        map[h].lemma_nonempty();
        let f = map[h]@[0].0 as int;
        assert(provided_so_far(pkgs, h, f, i, k));
        if f == i {
            let k2 = choose|k2: int| 0 <= k2 < k && k2 < pkgs[i].provides.len()
                && #[trigger] pkgs[i].provides@[k2].name_hash.0 == h;
            assert(pkgs[f].provides@[k2].name_hash.0 == h);
        }
        assert forall|v: int| 0 <= v < f implies !#[trigger] is_provider(pkgs, h, v) by {
            assert(!provided_so_far(pkgs, h, v, i, k));
        }
    }
    if exists|v: int| #[trigger] provided_so_far(pkgs, h, v, i, k) {
        let v = choose|v: int| #[trigger] provided_so_far(pkgs, h, v, i, k);
        assert(map.contains_key(h));
    }
}

} // verus!
