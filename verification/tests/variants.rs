use link_variants::catalan::catalan;
use link_variants::link::Link;
use link_variants::store::{LinkStore, StoreError};
use link_variants::variants::{
    all_seq_variants, creation_outcome, spec_all_variants, variant_capacity, EnumerationError,
};

fn empty_store() -> LinkStore {
    match LinkStore::new() {
        Ok(store) => store,
        Err(e) => panic!("no store: {:?}", e),
    }
}

#[test]
fn single_reference_is_its_own_variant() {
    let mut store = empty_store();
    let x = store.create_point().unwrap();
    let before = store.count();
    assert_eq!(all_seq_variants(&mut store, &[x]), Ok(vec![x]));
    assert_eq!(store.count(), before);
}

#[test]
fn single_unstored_reference_touches_nothing() {
    let mut store = empty_store();
    assert_eq!(all_seq_variants(&mut store, &[41]), Ok(vec![41]));
    assert_eq!(store.count(), 0);
}

#[test]
fn two_references_give_their_pair() {
    let mut store = empty_store();
    let a = store.create_point().unwrap();
    let b = store.create_point().unwrap();
    let roots = all_seq_variants(&mut store, &[a, b]).unwrap();
    assert_eq!(roots.len(), 1);
    assert_eq!(store.get_link(roots[0]), Some(Link::new(roots[0], a, b)));
    assert_eq!(store.get_or_create(a, b), Ok(roots[0]));
    assert_eq!(store.count(), 3);
}

#[test]
fn three_references_give_both_compositions_in_order() {
    let mut store = empty_store();
    let x = store.create_point().unwrap();
    let y = store.create_point().unwrap();
    let roots = all_seq_variants(&mut store, &[x, y, x]).unwrap();
    assert_eq!(roots.len(), 2);
    let yx = store.get_or_create(y, x).unwrap();
    let xy = store.get_or_create(x, y).unwrap();
    assert_eq!(store.get_link(roots[0]), Some(Link::new(roots[0], x, yx)));
    assert_eq!(store.get_link(roots[1]), Some(Link::new(roots[1], xy, x)));
    assert_eq!(store.count(), 6);
}

#[test]
fn variant_counts_are_catalan_numbers() {
    let mut store = empty_store();
    let x = store.create_point().unwrap();
    let y = store.create_point().unwrap();
    let leaves = [x, y, y, x, y, x, x];
    for n in 2..=leaves.len() {
        let roots = all_seq_variants(&mut store, &leaves[..n]).unwrap();
        assert_eq!(roots.len() as u64, catalan(n - 1));
    }
    let roots = all_seq_variants(&mut store, &leaves).unwrap();
    assert_eq!(roots.len(), 132);
}

#[test]
fn four_references_follow_the_cuts() {
    let mut store = empty_store();
    let a = store.create_point().unwrap();
    let b = store.create_point().unwrap();
    let c = store.create_point().unwrap();
    let d = store.create_point().unwrap();
    let roots = all_seq_variants(&mut store, &[a, b, c, d]).unwrap();
    let ab = store.get_or_create(a, b).unwrap();
    let bc = store.get_or_create(b, c).unwrap();
    let cd = store.get_or_create(c, d).unwrap();
    let b_cd = store.get_or_create(b, cd).unwrap();
    let bc_d = store.get_or_create(bc, d).unwrap();
    let a_bc = store.get_or_create(a, bc).unwrap();
    let ab_c = store.get_or_create(ab, c).unwrap();
    let expected = vec![
        store.get_or_create(a, b_cd).unwrap(),
        store.get_or_create(a, bc_d).unwrap(),
        store.get_or_create(ab, cd).unwrap(),
        store.get_or_create(a_bc, d).unwrap(),
        store.get_or_create(ab_c, d).unwrap(),
    ];
    assert_eq!(roots, expected);
    assert_eq!(store.count(), 4 + 12);
}

#[test]
fn a_pair_is_shared_between_enumerations() {
    let mut store = empty_store();
    let a = store.create_point().unwrap();
    let b = store.create_point().unwrap();
    let c = store.create_point().unwrap();
    let three = all_seq_variants(&mut store, &[a, b, c]).unwrap();
    let count = store.count();
    let two = all_seq_variants(&mut store, &[a, b]).unwrap();
    assert_eq!(store.count(), count);
    assert_eq!(two.len(), 1);
    assert_eq!(store.get_link(three[1]).unwrap().source, two[0]);
}

#[test]
fn repeating_an_enumeration_creates_nothing() {
    let mut store = empty_store();
    let x = store.create_point().unwrap();
    let y = store.create_point().unwrap();
    let first = all_seq_variants(&mut store, &[x, y, y, x]).unwrap();
    let count = store.count();
    let second = all_seq_variants(&mut store, &[x, y, y, x]).unwrap();
    assert_eq!(first, second);
    assert_eq!(store.count(), count);
}

#[test]
fn longer_sequences_go_through_the_general_case() {
    let mut store = empty_store();
    let x = store.create_point().unwrap();
    let y = store.create_point().unwrap();
    let direct = spec_all_variants(&mut store, &[x, y, x]).unwrap();
    let through = all_seq_variants(&mut store, &[x, y, x]).unwrap();
    assert_eq!(direct, through);
}

#[test]
fn capacity_comes_from_the_table() {
    assert_eq!(variant_capacity(1), Ok(1));
    assert_eq!(variant_capacity(2), Ok(1));
    assert_eq!(variant_capacity(3), Ok(2));
    assert_eq!(variant_capacity(4), Ok(5));
    assert_eq!(variant_capacity(11), Ok(16796));
    assert_eq!(variant_capacity(26), Err(EnumerationError::CapacityExceeded(26)));
    assert_eq!(variant_capacity(1000), Err(EnumerationError::CapacityExceeded(1000)));
}

#[test]
fn oversized_sequence_is_refused_before_the_store_is_touched() {
    let mut store = empty_store();
    let x = store.create_point().unwrap();
    let seq = vec![x; 26];
    assert_eq!(
        all_seq_variants(&mut store, &seq),
        Err(EnumerationError::CapacityExceeded(26))
    );
    assert_eq!(store.count(), 1);
}

#[test]
fn a_refusal_carries_its_pair() {
    assert_eq!(creation_outcome(3, 4, Ok(9)), Ok(9));
    assert_eq!(
        creation_outcome(3, 4, Err(StoreError::LimitReached(8))),
        Err(EnumerationError::CreationRejected {
            source: 3,
            target: 4,
            cause: StoreError::LimitReached(8)
        })
    );
    assert_eq!(
        creation_outcome(5, 6, Err(StoreError::AllocFailed)),
        Err(EnumerationError::CreationRejected {
            source: 5,
            target: 6,
            cause: StoreError::AllocFailed
        })
    );
}

#[test]
fn null_in_a_sequence_is_composed_as_it_is() {
    let mut store = empty_store();
    let b = store.create_point().unwrap();
    let c = store.create_point().unwrap();
    let roots = all_seq_variants(&mut store, &[0, b, c]).unwrap();
    assert_eq!(roots.len(), 2);
    let bc = store.search(b, c).unwrap();
    let first = store.get_link(roots[0]).unwrap();
    assert_eq!((first.source, first.target), (0, bc));
    let second = store.get_link(roots[1]).unwrap();
    assert_eq!(second.target, c);
    let inner = store.get_link(second.source).unwrap();
    assert_eq!((inner.source, inner.target), (0, b));
}

#[test]
fn wildcard_in_a_sequence_accepts_a_stored_link() {
    let mut store = empty_store();
    let a = store.create_point().unwrap();
    let b = store.create_point().unwrap();
    let ab = store.get_or_create(a, b).unwrap();
    let any = store.constants().any;
    let count = store.count();
    let roots = all_seq_variants(&mut store, &[any, b]).unwrap();
    assert_eq!(roots.len(), 1);
    assert!(store.exist(roots[0]));
    assert_eq!(store.get_link(roots[0]).unwrap().target, b);
    assert_eq!(store.count(), count);
    assert!(roots[0] == ab || roots[0] == b);
}
