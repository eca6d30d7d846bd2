use cache_sim::item::{Item, UNIT_COST_BITS};
use cache_sim::item_set::ItemSet;
use cache_sim::{GeneralModelGenerator, GeneralModelItem};

#[test]
fn paging_items_have_unit_size_and_cost() {
    assert_eq!(7u32.id(), 7);
    assert_eq!(7u32.size(), 1);
    assert_eq!(f64::from_bits(7u32.cost_bits()), 1.0);
    assert_eq!(7u64.id(), 7);
    assert_eq!(u64::MAX.id(), u64::MAX);
    assert_eq!(7u64.size(), 1);
    assert_eq!(f64::from_bits(7u64.cost_bits()), 1.0);
    assert_eq!(7i64.id(), 7);
    assert_eq!(7i64.size(), 1);
    assert_eq!(f64::from_bits(7i64.cost_bits()), 1.0);
    assert_eq!(UNIT_COST_BITS, 1.0f64.to_bits());
}

#[test]
fn negative_ids_wrap() {
    assert_eq!((-1i64).id(), u64::MAX);
    assert_eq!(i64::MIN.id(), 1u64 << 63);
}

#[test]
fn general_model_item_holds_what_it_was_given() {
    let item = GeneralModelItem::new(42, 2.5f64.to_bits(), 7);
    assert_eq!(item.id(), 42);
    assert_eq!(f64::from_bits(item.cost_bits()), 2.5);
    assert_eq!(item.size(), 7);
    let zero = GeneralModelItem::default();
    assert_eq!((zero.id(), zero.cost_bits(), zero.size()), (0, 0, 0));
}

#[test]
fn items_are_equal_by_id() {
    let a = GeneralModelItem::new(1, 1.0f64.to_bits(), 1);
    let b = GeneralModelItem::new(1, 9.0f64.to_bits(), 4);
    let c = GeneralModelItem::new(2, 1.0f64.to_bits(), 1);
    assert!(a == b);
    assert!(a != c);
}

#[test]
fn generator_counts_up_from_zero() {
    let mut g = GeneralModelGenerator::new();
    let a = g.item(1.0f64.to_bits(), 2);
    let b = g.item(0.5f64.to_bits(), 4);
    let c = g.item(100.0f64.to_bits(), 3);
    assert_eq!((a.id(), b.id(), c.id()), (0, 1, 2));
    assert_eq!((a.size(), b.size(), c.size()), (2, 4, 3));
    assert_eq!(f64::from_bits(b.cost_bits()), 0.5);
    let mut h = GeneralModelGenerator::default();
    assert_eq!(h.item(0, 0).id(), 0);
}

#[test]
fn item_set_holds_each_id_once() {
    let mut set = ItemSet::<GeneralModelItem>::new();
    assert!(set.is_empty());
    let a = GeneralModelItem::new(1, 0, 3);
    let same_id = GeneralModelItem::new(1, 0, 8);
    let b = GeneralModelItem::new(2, 0, 4);
    assert!(set.insert(a));
    assert!(!set.insert(same_id));
    assert!(set.insert(b));
    assert_eq!(set.len(), 2);
    // the first item with an id stays
    assert_eq!(set.get(0).size(), 3);
    assert_eq!(set.total_size(), 7);
    assert_eq!(set.ids(), vec![1, 2]);
    assert_eq!(set.position(2), Some(1));
    assert_eq!(set.position(3), None);
    assert!(set.contains(&same_id));
    assert!(set.contains_id(2));
    assert!(!set.contains_id(5));
    assert!(set.remove(&same_id));
    assert!(!set.remove(&a));
    assert_eq!(set.ids(), vec![2]);
    assert_eq!(set.total_size(), 4);
}

#[test]
fn item_set_without_takes_ids_away() {
    let mut set = ItemSet::<u32>::new();
    for i in [5u32, 3, 8, 1] {
        set.insert(i);
    }
    let mut gone = ItemSet::<u32>::new();
    gone.insert(8);
    gone.insert(7);
    gone.insert(5);
    assert_eq!(set.without(&gone).ids(), vec![3, 1]);
    assert_eq!(set.clone().ids(), vec![5, 3, 8, 1]);
    assert_eq!(set.without(&ItemSet::new()).ids(), vec![5, 3, 8, 1]);
}

#[test]
fn items_hash_by_id() {
    let a = GeneralModelItem::new(1, 1.0f64.to_bits(), 1);
    let b = GeneralModelItem::new(1, 9.0f64.to_bits(), 4);
    let c = GeneralModelItem::new(2, 1.0f64.to_bits(), 1);
    let mut set = std::collections::HashSet::new();
    assert!(set.insert(a));
    assert!(!set.insert(b));
    assert!(set.insert(c));
    assert_eq!(set.len(), 2);
}

#[test]
fn general_model_item_prints_its_identifier() {
    assert_eq!(GeneralModelItem::new(42, 2.5f64.to_bits(), 7).to_string(), "42");
    assert_eq!(GeneralModelItem::default().to_string(), "0");
}
