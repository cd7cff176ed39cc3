use dep_graph_analyzer::common::{DepHash, PackageIndex, ProviderList};

#[test]
fn new_list_holds_one_provider() {
    let list = ProviderList::new(PackageIndex(3));
    assert_eq!(list.iter(), vec![PackageIndex(3)]);
}

#[test]
fn add_provider_appends_in_order() {
    let mut list = ProviderList::new(PackageIndex(5));
    list.add_provider(PackageIndex(1));
    list.add_provider(PackageIndex(7));
    assert_eq!(list.iter(), vec![PackageIndex(5), PackageIndex(1), PackageIndex(7)]);
}

#[test]
fn add_provider_keeps_duplicates() {
    let mut list = ProviderList::new(PackageIndex(2));
    list.add_provider(PackageIndex(2));
    assert_eq!(list.iter(), vec![PackageIndex(2), PackageIndex(2)]);
}

#[test]
fn iter_is_repeatable() {
    let mut list = ProviderList::new(PackageIndex(0));
    list.add_provider(PackageIndex(4));
    let first = list.iter();
    let second = list.iter();
    assert_eq!(first, second);
    assert_eq!(first.len(), 2);
}

#[test]
fn dep_hash_and_index_compare_by_value() {
    assert_eq!(DepHash(42), DepHash(42));
    assert_ne!(DepHash(42), DepHash(43));
    assert_eq!(PackageIndex(9).0, 9);
}

#[test]
fn first_is_the_provider_added_first() {
    let mut list = ProviderList::new(PackageIndex(8));
    assert_eq!(list.first(), PackageIndex(8));
    list.add_provider(PackageIndex(2));
    assert_eq!(list.first(), PackageIndex(8));
}
