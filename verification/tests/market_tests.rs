use market::market::{BuyOutcome, Market};
use market::records::{Client, Product};

fn client(name: &str, surname: &str, balance: u64) -> Client {
    Client { name: name.as_bytes().to_vec(), surname: surname.as_bytes().to_vec(), balance }
}

fn product(name: &str, price: u64, stock: u32) -> Product {
    Product { name: name.as_bytes().to_vec(), price, stock }
}

#[test]
fn add_and_get() {
    let mut m = Market::new();
    m.add_client(1, client("Ada", "Lovelace", 50));
    m.add_product(7, product("tea", 30, 2));
    let c = m.get_client(1).expect("client 1 should exist");
    assert_eq!(c.name, b"Ada".to_vec());
    assert_eq!(c.surname, b"Lovelace".to_vec());
    assert_eq!(c.balance, 50);
    let p = m.get_product(7).expect("product 7 should exist");
    assert_eq!(p.name, b"tea".to_vec());
    assert_eq!(p.price, 30);
    assert_eq!(p.stock, 2);
    assert!(m.get_client(2).is_none());
    assert!(m.get_product(1).is_none());
}

#[test]
fn add_overwrites_existing_id() {
    let mut m = Market::new();
    m.add_client(1, client("Ada", "Lovelace", 50));
    m.add_client(1, client("Grace", "Hopper", 80));
    let c = m.get_client(1).unwrap();
    assert_eq!(c.name, b"Grace".to_vec());
    assert_eq!(c.balance, 80);
    assert_eq!(m.enumerate_clients().len(), 1);
}

#[test]
fn delete_reports_found() {
    let mut m = Market::new();
    m.add_client(1, client("Ada", "Lovelace", 50));
    assert!(m.delete_client(1));
    assert!(m.get_client(1).is_none());
    assert!(!m.delete_client(1));
}

#[test]
fn delete_missing_id_leaves_collection_unchanged() {
    let mut m = Market::new();
    assert!(!m.delete_product(999));
    assert_eq!(m.enumerate_products().len(), 0);
    m.add_product(1, product("tea", 30, 2));
    assert!(!m.delete_product(999));
    let ps = m.enumerate_products();
    assert_eq!(ps.len(), 1);
    assert_eq!(ps[0].0, 1);
    assert_eq!(ps[0].1.stock, 2);
}

#[test]
fn buy_unknown_ids_reports_not_found() {
    let mut m = Market::new();
    assert_eq!(m.buy(1, 1), BuyOutcome::NotFound);
    m.add_client(1, client("Ada", "Lovelace", 50));
    assert_eq!(m.buy(1, 1), BuyOutcome::NotFound);
    m.add_product(1, product("tea", 30, 2));
    assert_eq!(m.buy(2, 1), BuyOutcome::NotFound);
    assert_eq!(m.get_client(1).unwrap().balance, 50);
    assert_eq!(m.get_product(1).unwrap().stock, 2);
}

#[test]
fn buy_out_of_stock_changes_nothing() {
    let mut m = Market::new();
    m.add_client(1, client("Ada", "Lovelace", 1000));
    m.add_product(1, product("tea", 30, 0));
    assert_eq!(m.buy(1, 1), BuyOutcome::OutOfStock);
    assert_eq!(m.get_client(1).unwrap().balance, 1000);
    assert_eq!(m.get_product(1).unwrap().stock, 0);
}

#[test]
fn buy_out_of_stock_comes_before_insufficient_funds() {
    let mut m = Market::new();
    m.add_client(1, client("Ada", "Lovelace", 0));
    m.add_product(1, product("tea", 30, 0));
    assert_eq!(m.buy(1, 1), BuyOutcome::OutOfStock);
}

#[test]
fn buy_insufficient_funds_changes_nothing() {
    let mut m = Market::new();
    m.add_client(1, client("Ada", "Lovelace", 29));
    m.add_product(1, product("tea", 30, 2));
    assert_eq!(m.buy(1, 1), BuyOutcome::InsufficientFunds);
    assert_eq!(m.get_client(1).unwrap().balance, 29);
    assert_eq!(m.get_product(1).unwrap().stock, 2);
}

#[test]
fn buy_with_exact_balance_succeeds_to_zero() {
    let mut m = Market::new();
    m.add_client(1, client("Ada", "Lovelace", 30));
    m.add_product(1, product("tea", 30, 2));
    assert_eq!(m.buy(1, 1), BuyOutcome::Bought);
    assert_eq!(m.get_client(1).unwrap().balance, 0);
    assert_eq!(m.get_product(1).unwrap().stock, 1);
}

#[test]
fn buy_scenario_debits_and_decrements_and_persists() {
    let mut m = Market::new();
    m.add_client(1, client("Ada", "Lovelace", 50));
    m.add_product(1, product("tea", 30, 2));
    assert_eq!(m.buy(1, 1), BuyOutcome::Bought);
    assert_eq!(m.get_client(1).unwrap().balance, 20);
    assert_eq!(m.get_product(1).unwrap().stock, 1);
    // the persisted documents reflect both changes
    let cdoc = m.clients_document();
    let pdoc = m.products_document();
    let reloaded = Market::load(&cdoc, &pdoc);
    assert_eq!(reloaded.get_client(1).unwrap().balance, 20);
    assert_eq!(reloaded.get_product(1).unwrap().stock, 1);
}

#[test]
fn buy_repeats_stop_at_insufficient_funds() {
    // With balance 50 and price 30 the second and third attempts are both
    // rejected for funds (stock is still positive), and nothing changes.
    let mut m = Market::new();
    m.add_client(1, client("Ada", "Lovelace", 50));
    m.add_product(1, product("tea", 30, 2));
    assert_eq!(m.buy(1, 1), BuyOutcome::Bought);
    assert_eq!(m.buy(1, 1), BuyOutcome::InsufficientFunds);
    assert_eq!(m.buy(1, 1), BuyOutcome::InsufficientFunds);
    assert_eq!(m.get_client(1).unwrap().balance, 20);
    assert_eq!(m.get_product(1).unwrap().stock, 1);
}

#[test]
fn buy_repeats_stop_at_out_of_stock() {
    // With funds for more than the whole stock, the third attempt hits
    // out-of-stock and the balance stays where the second purchase left it.
    let mut m = Market::new();
    m.add_client(1, client("Ada", "Lovelace", 100));
    m.add_product(1, product("tea", 30, 2));
    assert_eq!(m.buy(1, 1), BuyOutcome::Bought);
    assert_eq!(m.buy(1, 1), BuyOutcome::Bought);
    assert_eq!(m.buy(1, 1), BuyOutcome::OutOfStock);
    assert_eq!(m.get_client(1).unwrap().balance, 40);
    assert_eq!(m.get_product(1).unwrap().stock, 0);
}

#[test]
fn enumerate_returns_all_entries() {
    let mut m = Market::new();
    m.add_client(3, client("Ada", "Lovelace", 50));
    m.add_client(5, client("Grace", "Hopper", 80));
    let cs = m.enumerate_clients();
    assert_eq!(cs.len(), 2);
    let ids: Vec<u32> = cs.iter().map(|e| e.0).collect();
    assert!(ids.contains(&3));
    assert!(ids.contains(&5));
    assert_eq!(m.enumerate_products().len(), 0);
}
