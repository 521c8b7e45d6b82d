use pos::basket::{
    handle_add_product, handle_create_basket, handle_create_product, handle_get_basket,
    handle_get_baskets, handle_get_product, handle_get_products, handle_init_mock_data,
    update_basket, get_as_type, load_positions,
};
use pos::records::{Basket, EntryType, Position, Product, Record};
use pos::store::{Address, LinkTag, Store, StoreError};

fn product(name: &str, price: u32) -> Product {
    Product { name: name.to_string(), description: format!("{} description", name), price }
}

fn basket(name: &str, sum: i64) -> Basket {
    Basket { name: name.to_string(), sum }
}

fn position(amount: i8, timestamp: &str) -> Position {
    Position { amount, timestamp: timestamp.to_string() }
}

#[test]
fn put_twice_returns_same_address() {
    let mut store = Store::new();
    let a1 = store.put(Record::Product(product("A", 1000)));
    let len_after_first = store.len();
    let a2 = store.put(Record::Product(product("A", 1000)));
    assert_eq!(a1, a2);
    assert_eq!(store.len(), len_after_first);
    assert_eq!(store.len(), 1);
}

#[test]
fn different_content_gets_different_addresses() {
    let mut store = Store::new();
    let a1 = store.put(Record::Product(product("A", 1000)));
    let a2 = store.put(Record::Product(product("A", 1001)));
    let a3 = store.put(Record::Basket(basket("A", 0)));
    assert_ne!(a1, a2);
    assert_ne!(a2, a3);
    assert_eq!(store.len(), 3);
}

#[test]
fn product_round_trip() {
    let mut store = Store::new();
    let a = handle_create_product(&mut store, product("Apple", 250));
    let p = handle_get_product(&store, a).unwrap();
    assert_eq!(p.id, a);
    assert_eq!(p.name, "Apple");
    assert_eq!(p.description, "Apple description");
    assert_eq!(p.price, 250);
}

#[test]
fn links_keep_creation_order() {
    let mut store = Store::new();
    let base = store.put(Record::Basket(basket("b", 0)));
    let t1 = store.put(Record::Position(position(1, "t1")));
    let t2 = store.put(Record::Position(position(2, "t2")));
    assert_eq!(store.links_from(base, LinkTag::Positions), Vec::<Address>::new());
    store.link(base, t1, LinkTag::Positions);
    store.link(base, t2, LinkTag::Positions);
    assert_eq!(store.links_from(base, LinkTag::Positions), vec![t1, t2]);
    assert_eq!(store.links_from(base, LinkTag::Product), Vec::<Address>::new());
}

#[test]
fn relinking_appends_a_duplicate() {
    let mut store = Store::new();
    let base = store.put(Record::Basket(basket("b", 0)));
    let t = store.put(Record::Position(position(1, "t")));
    store.link(base, t, LinkTag::Positions);
    store.link(base, t, LinkTag::Positions);
    assert_eq!(store.links_from(base, LinkTag::Positions), vec![t, t]);
}

#[test]
fn empty_basket_has_zero_sum() {
    let mut store = Store::new();
    let cart = handle_create_basket(&mut store, basket("cart", 0));
    let view = handle_get_basket(&store, cart).unwrap();
    assert_eq!(view.sum, 0);
    assert_eq!(view.name, "cart");
    assert_eq!(view.id, cart);
    assert!(view.product_positions.is_empty());
}

#[test]
fn add_product_raises_sum_by_amount_times_price() {
    let mut store = Store::new();
    let a = handle_create_product(&mut store, product("A", 1000));
    let cart = handle_create_basket(&mut store, basket("cart", 0));
    let view = handle_add_product(&mut store, a, cart, position(2, "t1")).unwrap();
    assert_eq!(view.sum, 2000);
    let view = handle_add_product(&mut store, a, cart, position(-1, "t2")).unwrap();
    assert_eq!(view.sum, 1000);
}

#[test]
fn cart_example_scenario() {
    let mut store = Store::new();
    let a = handle_create_product(&mut store, product("A", 1000));
    let b = handle_create_product(&mut store, product("B", 500));
    let cart = handle_create_basket(&mut store, basket("cart", 0));
    let v1 = handle_add_product(&mut store, a, cart, position(2, "t1")).unwrap();
    assert_eq!(v1.sum, 2000);
    let v2 = handle_add_product(&mut store, b, cart, position(3, "t2")).unwrap();
    assert_eq!(v2.sum, 3500);
    let view = handle_get_basket(&store, cart).unwrap();
    assert_eq!(view.name, "cart");
    assert_eq!(view.sum, 3500);
    assert_eq!(view.product_positions.len(), 2);
    let total: i64 = view
        .product_positions
        .iter()
        .map(|p| p.amount as i64 * p.product.price as i64)
        .sum();
    assert_eq!(total, 3500);
    assert_eq!(view.product_positions[0].amount, 2);
    assert_eq!(view.product_positions[0].product.name, "A");
    assert_eq!(view.product_positions[1].amount, 3);
    assert_eq!(view.product_positions[1].product.name, "B");
}

#[test]
fn get_basket_through_any_version() {
    let mut store = Store::new();
    let a = handle_create_product(&mut store, product("A", 1000));
    let cart = handle_create_basket(&mut store, basket("cart", 0));
    let v1 = handle_add_product(&mut store, a, cart, position(2, "t1")).unwrap();
    let v2 = handle_add_product(&mut store, a, cart, position(1, "t2")).unwrap();
    assert_ne!(v1.id, v2.id);
    let through_old = handle_get_basket(&store, v1.id).unwrap();
    let through_head = handle_get_basket(&store, v2.id).unwrap();
    assert_eq!(through_old.sum, 3000);
    assert_eq!(through_head.sum, 3000);
    assert_eq!(through_old.id, v2.id);
    assert_eq!(through_old.product_positions.len(), 2);
}

#[test]
fn traversal_returns_one_pair_per_position() {
    let mut store = Store::new();
    let a = handle_create_product(&mut store, product("A", 100));
    let cart = handle_create_basket(&mut store, basket("cart", 0));
    for k in 0..5i8 {
        handle_add_product(&mut store, a, cart, position(k + 1, &format!("t{}", k))).unwrap();
    }
    let view = handle_get_basket(&store, cart).unwrap();
    assert_eq!(view.product_positions.len(), 5);
    for k in 0..5usize {
        assert_eq!(view.product_positions[k].amount, k as i8 + 1);
    }
    assert_eq!(view.sum, 1500);
}

#[test]
fn list_products_dedups_identical_products() {
    let mut store = Store::new();
    let a1 = handle_create_product(&mut store, product("A", 1000));
    let a2 = handle_create_product(&mut store, product("A", 1000));
    assert_eq!(a1, a2);
    let products = handle_get_products(&store);
    assert_eq!(products.len(), 1);
    assert_eq!(products[0].id, a1);
    assert_eq!(products[0].price, 1000);
}

#[test]
fn list_products_in_storage_order() {
    let mut store = Store::new();
    let a = handle_create_product(&mut store, product("A", 1));
    handle_create_basket(&mut store, basket("cart", 0));
    let b = handle_create_product(&mut store, product("B", 2));
    let products = handle_get_products(&store);
    assert_eq!(products.len(), 2);
    assert_eq!(products[0].id, a);
    assert_eq!(products[1].id, b);
    assert_eq!(products[1].name, "B");
}

#[test]
fn list_baskets_shows_current_version_once() {
    let mut store = Store::new();
    let a = handle_create_product(&mut store, product("A", 1000));
    let cart = handle_create_basket(&mut store, basket("cart", 0));
    let other = handle_create_basket(&mut store, basket("other", 7));
    handle_add_product(&mut store, a, cart, position(2, "t1")).unwrap();
    let latest = handle_add_product(&mut store, a, cart, position(3, "t2")).unwrap();
    let rows = handle_get_baskets(&store);
    assert_eq!(rows.len(), 2);
    assert_ne!(latest.id, cart);
    assert_eq!(rows[0].id, latest.id);
    assert_eq!(rows[0].name, "cart");
    assert_eq!(rows[0].sum, 5000);
    assert_eq!(rows[1].id, other);
    assert_eq!(rows[1].sum, 7);
}

#[test]
fn missing_product_link_is_inconsistent() {
    let mut store = Store::new();
    let cart = handle_create_basket(&mut store, basket("cart", 0));
    let p = store.put(Record::Position(position(1, "t")));
    store.link(cart, p, LinkTag::Positions);
    assert_eq!(handle_get_basket(&store, cart).err(), Some(StoreError::InconsistentLink));
}

#[test]
fn two_product_links_are_inconsistent() {
    let mut store = Store::new();
    let a = handle_create_product(&mut store, product("A", 1));
    let b = handle_create_product(&mut store, product("B", 2));
    let cart = handle_create_basket(&mut store, basket("cart", 0));
    let p = store.put(Record::Position(position(1, "t")));
    store.link(cart, p, LinkTag::Positions);
    store.link(p, a, LinkTag::Product);
    store.link(p, b, LinkTag::Product);
    assert_eq!(handle_get_basket(&store, cart).err(), Some(StoreError::InconsistentLink));
}

#[test]
fn re_adding_an_identical_position_is_refused() {
    let mut store = Store::new();
    let a = handle_create_product(&mut store, product("A", 1000));
    let cart = handle_create_basket(&mut store, basket("cart", 0));
    handle_add_product(&mut store, a, cart, position(2, "t1")).unwrap();
    let len = store.len();
    let r = handle_add_product(&mut store, a, cart, position(2, "t1"));
    assert_eq!(r.err(), Some(StoreError::InconsistentLink));
    assert_eq!(store.len(), len);
    assert_eq!(handle_get_basket(&store, cart).unwrap().sum, 2000);
}

#[test]
fn unknown_addresses_are_not_found() {
    let mut store = Store::new();
    let cart = handle_create_basket(&mut store, basket("cart", 0));
    let nowhere = Address { index: 99 };
    assert_eq!(handle_get_basket(&store, nowhere).err(), Some(StoreError::NotFound));
    assert_eq!(handle_get_product(&store, nowhere).err(), Some(StoreError::NotFound));
    let r = handle_add_product(&mut store, nowhere, cart, position(1, "t"));
    assert_eq!(r.err(), Some(StoreError::NotFound));
    assert_eq!(store.len(), 1);
    assert_eq!(store.get(nowhere).err(), Some(StoreError::NotFound));
}

#[test]
fn wrong_entry_type_is_a_decode_error() {
    let mut store = Store::new();
    let a = handle_create_product(&mut store, product("A", 1000));
    let cart = handle_create_basket(&mut store, basket("cart", 0));
    assert_eq!(handle_get_basket(&store, a).err(), Some(StoreError::DecodeError));
    assert_eq!(handle_get_product(&store, cart).err(), Some(StoreError::DecodeError));
    assert_eq!(
        handle_add_product(&mut store, cart, cart, position(1, "t")).err(),
        Some(StoreError::DecodeError)
    );
    assert_eq!(get_as_type(&store, a, EntryType::Basket).err(), Some(StoreError::DecodeError));
    assert!(get_as_type(&store, a, EntryType::Product).is_ok());
}

#[test]
fn sum_overflow_is_refused() {
    let mut store = Store::new();
    let a = handle_create_product(&mut store, product("A", 10));
    let cart = handle_create_basket(&mut store, basket("cart", i64::MAX - 5));
    let r = handle_add_product(&mut store, a, cart, position(1, "t"));
    assert_eq!(r.err(), Some(StoreError::Overflow));
    assert_eq!(store.len(), 2);
    let ok = handle_add_product(&mut store, a, cart, position(-1, "t")).unwrap();
    assert_eq!(ok.sum, i64::MAX - 15);
}

#[test]
fn largest_position_total() {
    let mut store = Store::new();
    let a = handle_create_product(&mut store, product("A", u32::MAX));
    let cart = handle_create_basket(&mut store, basket("cart", 0));
    let v = handle_add_product(&mut store, a, cart, position(i8::MIN, "t")).unwrap();
    assert_eq!(v.sum, -128 * u32::MAX as i64);
}

#[test]
fn update_basket_stores_a_new_version() {
    let mut store = Store::new();
    let a = handle_create_product(&mut store, product("A", 300));
    let cart = handle_create_basket(&mut store, basket("cart", 0));
    let p = store.put(Record::Position(position(4, "t")));
    assert_eq!(update_basket(&mut store, cart, a, p).err(), Some(StoreError::InconsistentLink));
    store.link(p, a, LinkTag::Product);
    assert_eq!(update_basket(&mut store, cart, a, p).err(), Some(StoreError::InconsistentLink));
    store.link(cart, p, LinkTag::Positions);
    let new_version = update_basket(&mut store, cart, a, p).unwrap();
    assert_ne!(new_version, cart);
    assert_eq!(store.head(cart), new_version);
    assert_eq!(store.logical(new_version), cart);
    assert_eq!(handle_get_basket(&store, cart).unwrap().sum, 1200);
    assert_eq!(update_basket(&mut store, cart, a, cart).err(), Some(StoreError::DecodeError));
}

#[test]
fn load_positions_stops_at_first_failure() {
    let mut store = Store::new();
    let a = handle_create_product(&mut store, product("A", 300));
    let p = store.put(Record::Position(position(4, "t")));
    store.link(p, a, LinkTag::Product);
    let ok = load_positions(&store, &vec![p, p]).unwrap();
    assert_eq!(ok.len(), 2);
    assert_eq!(ok[1].product.price, 300);
    let err = load_positions(&store, &vec![p, Address { index: 50 }, a]);
    assert_eq!(err.err(), Some(StoreError::NotFound));
}

#[test]
fn init_mock_data_returns_basket_addresses() {
    let mut store = Store::new();
    let addrs = handle_init_mock_data(
        &mut store,
        vec![product("A", 1), product("B", 2), product("A", 1)],
        vec![basket("x", 0), basket("y", 3)],
        vec![position(1, "t")],
    );
    assert_eq!(addrs.len(), 2);
    assert_eq!(store.len(), 4);
    assert_eq!(handle_get_basket(&store, addrs[1]).unwrap().name, "y");
    assert_eq!(handle_get_products(&store).len(), 2);
}

#[test]
fn catalog_lists_each_type_in_storage_order() {
    let mut store = Store::new();
    let a = store.put(Record::Product(product("A", 1)));
    let c = store.put(Record::Basket(basket("cart", 0)));
    let b = store.put(Record::Product(product("B", 2)));
    store.put(Record::Product(product("A", 1)));
    assert_eq!(store.all_of_type(EntryType::Product), vec![a, b]);
    assert_eq!(store.all_of_type(EntryType::Basket), vec![c]);
    assert_eq!(store.all_of_type(EntryType::Position), Vec::<Address>::new());
}

#[test]
fn cart_example_lists_current_version() {
    let mut store = Store::new();
    let a = handle_create_product(&mut store, product("A", 1000));
    let b = handle_create_product(&mut store, product("B", 500));
    let cart = handle_create_basket(&mut store, basket("cart", 0));
    handle_add_product(&mut store, a, cart, position(2, "t1")).unwrap();
    handle_add_product(&mut store, b, cart, position(3, "t2")).unwrap();
    let head = store.find(&Record::Basket(basket("cart", 3500))).unwrap();
    let rows = handle_get_baskets(&store);
    assert_eq!(rows.len(), 1);
    assert_eq!(rows[0].id, head);
    assert_eq!(rows[0].name, "cart");
    assert_eq!(rows[0].sum, 3500);
}

#[test]
fn new_basket_is_its_own_head() {
    let mut store = Store::new();
    let a = handle_create_product(&mut store, product("A", 1000));
    let cart = handle_create_basket(&mut store, basket("cart", 0));
    assert_eq!(store.head(cart), cart);
    assert_eq!(store.logical(cart), cart);
    assert!(store.links_from(cart, LinkTag::Positions).is_empty());
    let v = handle_add_product(&mut store, a, cart, position(1, "t")).unwrap();
    let other = handle_create_basket(&mut store, basket("other", 0));
    assert_ne!(other, v.id);
    assert_eq!(store.head(other), other);
    assert_eq!(handle_get_basket(&store, other).unwrap().sum, 0);
}

#[test]
fn version_shared_with_another_basket_is_refused() {
    let mut store = Store::new();
    let ten = handle_create_product(&mut store, product("ten", 10));
    let one = handle_create_product(&mut store, product("one", 1));
    let c = handle_create_basket(&mut store, basket("cart", 0));
    let e = handle_create_basket(&mut store, basket("cart", 5));
    let vc = handle_add_product(&mut store, ten, c, position(1, "c1")).unwrap();
    assert_eq!(vc.sum, 10);
    let len = store.len();
    let r = handle_add_product(&mut store, one, e, position(5, "e1"));
    assert_eq!(r.err(), Some(StoreError::VersionConflict));
    assert_eq!(store.len(), len);
    let through_head = handle_get_basket(&store, vc.id).unwrap();
    assert_eq!(through_head.product_positions.len(), 1);
    assert_eq!(through_head.product_positions[0].product.name, "ten");
    assert_eq!(handle_get_basket(&store, e).unwrap().sum, 5);
}

#[test]
fn returning_to_an_earlier_sum_reuses_the_basket_version() {
    let mut store = Store::new();
    let a = handle_create_product(&mut store, product("A", 100));
    let cart = handle_create_basket(&mut store, basket("cart", 0));
    handle_add_product(&mut store, a, cart, position(1, "t1")).unwrap();
    let back = handle_add_product(&mut store, a, cart, position(-1, "t2")).unwrap();
    assert_eq!(back.sum, 0);
    assert_eq!(back.id, cart);
    assert_eq!(back.product_positions.len(), 2);
    assert_eq!(handle_get_baskets(&store).len(), 1);
}

#[test]
fn broken_position_after_good_ones_fails_the_read() {
    let mut store = Store::new();
    let a = handle_create_product(&mut store, product("A", 100));
    let cart = handle_create_basket(&mut store, basket("cart", 0));
    handle_add_product(&mut store, a, cart, position(1, "t1")).unwrap();
    handle_add_product(&mut store, a, cart, position(2, "t2")).unwrap();
    let broken = store.put(Record::Position(position(3, "t3")));
    store.link(cart, broken, LinkTag::Positions);
    assert_eq!(handle_get_basket(&store, cart).err(), Some(StoreError::InconsistentLink));
}
