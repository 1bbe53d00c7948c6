use link_variants::link::Link;
use link_variants::store::{get_link_by_id, LinkStore, StoreError, LINK_LIMIT};
use link_variants::variants::{all_seq_variants, EnumerationError};

fn fresh_store() -> LinkStore {
    match LinkStore::new() {
        Ok(store) => store,
        Err(e) => panic!("no store: {:?}", e),
    }
}

#[test]
fn new_store_is_empty() {
    let store = fresh_store();
    assert_eq!(store.count(), 0);
    assert!(store.links().is_empty());
    assert!(!store.exist(1));
    assert_eq!(store.get_link(1), None);
}

#[test]
fn store_constants_are_the_default_ones() {
    let store = fresh_store();
    let constants = store.constants();
    assert_eq!(constants.null, 0);
    assert_eq!(constants.any, usize::MAX - 3);
    assert_eq!(constants.itself, usize::MAX - 4);
    assert!(!store.exist(constants.null));
    assert!(!store.exist(constants.any));
    assert!(!store.exist(constants.itself));
}

#[test]
fn create_point_makes_a_self_referential_link() {
    let mut store = fresh_store();
    let x = store.create_point().unwrap();
    assert!(store.exist(x));
    assert_eq!(store.get_link(x), Some(Link::point(x)));
    assert_eq!(store.count(), 1);
    let y = store.create_point().unwrap();
    assert_ne!(x, y);
    assert_eq!(store.get_link(y), Some(Link::point(y)));
    assert_eq!(store.get_link(x), Some(Link::point(x)));
    assert_eq!(store.count(), 2);
}

#[test]
fn get_or_create_is_idempotent() {
    let mut store = fresh_store();
    let a = store.create_point().unwrap();
    let b = store.create_point().unwrap();
    let before = store.count();
    let first = store.get_or_create(a, b).unwrap();
    assert_eq!(store.count(), before + 1);
    assert_eq!(store.get_link(first), Some(Link::new(first, a, b)));
    let second = store.get_or_create(a, b).unwrap();
    assert_eq!(second, first);
    assert_eq!(store.count(), before + 1);
    let reversed = store.get_or_create(b, a).unwrap();
    assert_ne!(reversed, first);
    assert_eq!(store.get_link(reversed), Some(Link::new(reversed, b, a)));
    assert_eq!(store.count(), before + 2);
}

#[test]
fn get_or_create_finds_a_point() {
    let mut store = fresh_store();
    let a = store.create_point().unwrap();
    assert_eq!(store.get_or_create(a, a), Ok(a));
    assert_eq!(store.count(), 1);
}

#[test]
fn update_changes_one_link() {
    let mut store = fresh_store();
    let kind = store.create_point().unwrap();
    let x = store.create_point().unwrap();
    assert_eq!(store.update(x, x, kind), Ok(x));
    assert_eq!(store.get_link(x), Some(Link::new(x, x, kind)));
    assert_eq!(store.get_link(kind), Some(Link::point(kind)));
    assert_eq!(store.count(), 2);
}

#[test]
fn update_of_a_missing_link_is_refused() {
    let mut store = fresh_store();
    let x = store.create_point().unwrap();
    assert_eq!(store.update(x + 5, x, x + 5), Err(StoreError::NotExists(x + 5)));
    assert_eq!(store.count(), 1);
    assert_eq!(store.get_link(x), Some(Link::point(x)));
}

#[test]
fn links_come_by_rising_index() {
    let mut store = fresh_store();
    let a = store.create_point().unwrap();
    let b = store.create_point().unwrap();
    let ab = store.get_or_create(a, b).unwrap();
    let mut expected = vec![Link::point(a), Link::point(b), Link::new(ab, a, b)];
    expected.sort_by_key(|link| link.index);
    assert_eq!(store.links(), expected);
}

#[test]
fn get_link_by_id_finds_stored_links_only() {
    let mut store = fresh_store();
    let a = store.create_point().unwrap();
    let b = store.create_point().unwrap();
    let ab = store.get_or_create(a, b).unwrap();
    assert_eq!(get_link_by_id(&store, ab), Ok(Link::new(ab, a, b)));
    assert_eq!(get_link_by_id(&store, a), Ok(Link::point(a)));
    assert_eq!(get_link_by_id(&store, ab + 7), Err(StoreError::NotExists(ab + 7)));
    assert_eq!(get_link_by_id(&store, 0), Err(StoreError::NotExists(0)));
    let any = store.constants().any;
    assert_eq!(get_link_by_id(&store, any), Err(StoreError::NotExists(any)));
}

#[test]
fn search_finds_stored_pairs_only() {
    let mut store = fresh_store();
    let a = store.create_point().unwrap();
    let b = store.create_point().unwrap();
    let ab = store.get_or_create(a, b).unwrap();
    assert_eq!(store.search(a, b), Some(ab));
    assert_eq!(store.search(b, a), None);
    assert_eq!(store.search(a, a), Some(a));
    assert_eq!(store.count(), 3);
}

#[test]
fn a_store_at_its_limit_finds_links_and_creates_none() {
    let mut store = fresh_store();
    let first = store.create_point().unwrap();
    let second = store.create_point().unwrap();
    let pair = store.get_or_create(first, second).unwrap();
    while store.count() < LINK_LIMIT {
        store.create_point().unwrap();
    }
    assert_eq!(store.count(), LINK_LIMIT);
    assert_eq!(store.get_link(LINK_LIMIT), Some(Link::point(LINK_LIMIT)));
    assert_eq!(store.create_point(), Err(StoreError::LimitReached(LINK_LIMIT)));
    assert_eq!(store.get_or_create(first, second), Ok(pair));
    assert_eq!(
        store.get_or_create(second, first),
        Err(StoreError::LimitReached(LINK_LIMIT))
    );
    assert_eq!(
        all_seq_variants(&mut store, &[first, second, first]),
        Err(EnumerationError::CreationRejected {
            source: second,
            target: first,
            cause: StoreError::LimitReached(LINK_LIMIT)
        })
    );
    assert_eq!(all_seq_variants(&mut store, &[first, second]), Ok(vec![pair]));
    assert_eq!(store.count(), LINK_LIMIT);
    assert_eq!(store.get_link(pair), Some(Link::new(pair, first, second)));
    assert!(!store.exist(LINK_LIMIT + 1));
}
