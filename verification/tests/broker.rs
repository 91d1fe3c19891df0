use catten_services::broker::{Catalog, CatalogTarget, EventBroker, KeyedWaitlist};
use catten_services::ns::{Registration, Registry};
use catten_services::namemap::NameMap;

fn catalog(names: &[&str]) -> Registry {
    let mut registry = Registry::new();
    for name in names {
        let registration = Registration { connection: 7, generation: 1, access_key: 0 };
        registry.set(name.as_bytes().to_vec(), registration);
    }
    registry
}

#[test]
fn a_name_map_keeps_its_names_in_order() {
    let mut map: NameMap<u32> = NameMap::new();
    assert_eq!(map.insert(b"net".to_vec(), 1), None);
    assert_eq!(map.insert(b"disk".to_vec(), 2), None);
    assert_eq!(map.insert(b"net".to_vec(), 3), Some(1));
    assert_eq!(map.insert(b"n".to_vec(), 4), None);
    assert_eq!(map.len(), 3);
    assert_eq!(map.get(b"net"), Some(&3));
    assert_eq!(map.get(b"ne"), None);
    assert_eq!(map.name_at(0), &b"disk".to_vec());
    assert_eq!(map.name_at(1), &b"n".to_vec());
    assert_eq!(map.remove(b"n"), Some(4));
    assert_eq!(map.remove(b"n"), None);
    assert_eq!(map.take_first(), Some((b"disk".to_vec(), 2)));
    assert_eq!(map.take_first(), Some((b"net".to_vec(), 3)));
    assert_eq!(map.take_first(), None);
}

#[test]
fn a_catalog_resolves_what_it_holds() {
    let mut names = catalog(&["net"]);
    assert_eq!(names.resolve(b"net"), Some(CatalogTarget { generation: 1, connection: 7 }));
    assert_eq!(names.resolve(b"disk"), None);
    let gone = Registration { connection: 0, generation: 1, access_key: 0 };
    names.set(b"net".to_vec(), gone);
    assert_eq!(names.resolve(b"net"), None);
}

#[test]
fn a_present_event_is_handed_back() {
    let mut list: KeyedWaitlist<u64> = KeyedWaitlist::new();
    assert!(list.is_empty());
    assert_eq!(list.park(b"net", 7, &catalog(&["net"])), Some(7));
    assert!(list.is_empty());
    assert_eq!(list.park(b"net", 7, &catalog(&[])), None);
    assert_eq!(list.len(), 1);
}

#[test]
fn parked_waiters_are_returned_when_fired() {
    let mut list: KeyedWaitlist<u64> = KeyedWaitlist::new();
    let none = catalog(&[]);
    list.park(b"net", 1, &none);
    list.park(b"disk", 2, &none);
    list.park(b"net", 3, &none);
    assert_eq!(list.fire(b"net"), vec![1, 3]);
    assert_eq!(list.fire(b"net"), Vec::<u64>::new());
    assert_eq!(list.fire(b"disk"), vec![2]);
    assert!(list.is_empty());
}

#[test]
fn settlement_runs_in_name_order() {
    let mut list: KeyedWaitlist<u64> = KeyedWaitlist::default();
    let none = catalog(&[]);
    list.park(b"net", 1, &none);
    list.park(b"disk", 2, &none);
    list.park(b"net", 3, &none);
    list.park(b"late", 4, &none);
    let resolved = list.settle(&catalog(&["net", "disk"]));
    assert_eq!(
        resolved,
        vec![(b"disk".to_vec(), 2), (b"net".to_vec(), 1), (b"net".to_vec(), 3)]
    );
    assert_eq!(list.len(), 1);
    assert_eq!(list.settle(&none), vec![]);
    assert_eq!(list.fire(b"late"), vec![4]);
}
