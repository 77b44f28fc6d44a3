use market::market::{BuyOutcome, Market};
use market::records::{Client, Product};
use market::snapshot::{parse_clients_doc, parse_products_doc};

fn client(name: &str, surname: &str, balance: u64) -> Client {
    Client { name: name.as_bytes().to_vec(), surname: surname.as_bytes().to_vec(), balance }
}

fn product(name: &str, price: u64, stock: u32) -> Product {
    Product { name: name.as_bytes().to_vec(), price, stock }
}

#[test]
fn empty_documents() {
    let m = Market::new();
    assert_eq!(m.clients_document(), b"{}".to_vec());
    assert_eq!(m.products_document(), b"{}".to_vec());
    let r = Market::load(&b"{}".to_vec(), &b"{}".to_vec());
    assert_eq!(r.enumerate_clients().len(), 0);
    assert_eq!(r.enumerate_products().len(), 0);
}

#[test]
fn document_bytes_are_exact() {
    let mut m = Market::new();
    m.add_client(1, client("a", "b", 50));
    m.add_product(1, product("tea", 30, 2));
    let cdoc = String::from_utf8(m.clients_document()).unwrap();
    assert_eq!(cdoc, "{\"1\":{\"name\":\"a\",\"surname\":\"b\",\"balance\":50}}");
    let pdoc = String::from_utf8(m.products_document()).unwrap();
    assert_eq!(pdoc, "{\"1\":{\"name\":\"tea\",\"price\":30,\"stock\":2}}");
}

#[test]
fn round_trip_preserves_every_field() {
    let mut m = Market::new();
    m.add_client(1, client("Ada", "Lovelace", 50));
    m.add_client(42, client("Grace", "Hopper", 0));
    m.add_product(7, product("tea", 30, 2));
    m.add_product(9, product("mug", 1, 1000));
    let r = Market::load(&m.clients_document(), &m.products_document());
    let c = r.get_client(42).unwrap();
    assert_eq!(c.name, b"Grace".to_vec());
    assert_eq!(c.surname, b"Hopper".to_vec());
    assert_eq!(c.balance, 0);
    let p = r.get_product(7).unwrap();
    assert_eq!(p.name, b"tea".to_vec());
    assert_eq!(p.price, 30);
    assert_eq!(p.stock, 2);
    assert_eq!(r.enumerate_clients().len(), 2);
    assert_eq!(r.enumerate_products().len(), 2);
}

#[test]
fn round_trip_escapes_special_characters() {
    let mut m = Market::new();
    let odd_name = "sa\"id\\o\nend";
    m.add_client(3, client(odd_name, "O'Brien", 12));
    let doc = m.clients_document();
    let r = Market::load(&doc, &b"{}".to_vec());
    let c = r.get_client(3).unwrap();
    assert_eq!(c.name, odd_name.as_bytes().to_vec());
    assert_eq!(c.surname, b"O'Brien".to_vec());
}

#[test]
fn round_trip_extreme_numbers() {
    let mut m = Market::new();
    m.add_client(u32::MAX, client("x", "y", u64::MAX));
    m.add_product(0, product("z", 0, u32::MAX));
    let r = Market::load(&m.clients_document(), &m.products_document());
    assert_eq!(r.get_client(u32::MAX).unwrap().balance, u64::MAX);
    assert_eq!(r.get_product(0).unwrap().stock, u32::MAX);
    assert_eq!(r.get_product(0).unwrap().price, 0);
}

#[test]
fn corrupt_documents_load_as_empty() {
    let r = Market::load(&b"garbage".to_vec(), &b"{\"1\":{\"name\":\"t".to_vec());
    assert_eq!(r.enumerate_clients().len(), 0);
    assert_eq!(r.enumerate_products().len(), 0);
}

#[test]
fn parser_rejects_trailing_bytes() {
    let mut m = Market::new();
    m.add_client(1, client("a", "b", 5));
    let mut doc = m.clients_document();
    assert!(parse_clients_doc(&doc).is_some());
    doc.push(b' ');
    assert!(parse_clients_doc(&doc).is_none());
}

#[test]
fn parser_rejects_wrong_field_names() {
    let doc = b"{\"1\":{\"name\":\"t\",\"cost\":30,\"stock\":2}}".to_vec();
    assert!(parse_products_doc(&doc).is_none());
}

#[test]
fn parser_rejects_oversized_numbers() {
    // one more than u32::MAX as a stock count
    let doc = b"{\"1\":{\"name\":\"t\",\"price\":30,\"stock\":4294967296}}".to_vec();
    assert!(parse_products_doc(&doc).is_none());
    let ok = b"{\"1\":{\"name\":\"t\",\"price\":30,\"stock\":4294967295}}".to_vec();
    let v = parse_products_doc(&ok).unwrap();
    assert_eq!(v[0].1.stock, u32::MAX);
}

#[test]
fn documents_are_valid_json_with_the_expected_fields() {
    let mut m = Market::new();
    m.add_client(1, client("sa\"id\\o", "b", 50));
    m.add_product(2, product("tea", 30, 7));
    let cdoc = String::from_utf8(m.clients_document()).unwrap();
    let v: serde_json::Value = serde_json::from_str(&cdoc).unwrap();
    assert_eq!(v.get("1").unwrap().get("name").unwrap().as_str().unwrap(), "sa\"id\\o");
    assert_eq!(v.get("1").unwrap().get("surname").unwrap().as_str().unwrap(), "b");
    assert_eq!(v.get("1").unwrap().get("balance").unwrap().as_u64().unwrap(), 50);
    let pdoc = String::from_utf8(m.products_document()).unwrap();
    let w: serde_json::Value = serde_json::from_str(&pdoc).unwrap();
    assert_eq!(w.get("2").unwrap().get("name").unwrap().as_str().unwrap(), "tea");
    assert_eq!(w.get("2").unwrap().get("price").unwrap().as_u64().unwrap(), 30);
    assert_eq!(w.get("2").unwrap().get("stock").unwrap().as_u64().unwrap(), 7);
}

#[test]
fn control_bytes_are_escaped_as_json_unicode() {
    let mut m = Market::new();
    m.add_client(1, client("a\nb", "c", 1));
    let cdoc = String::from_utf8(m.clients_document()).unwrap();
    assert!(cdoc.contains("\\u000a"));
    let v: serde_json::Value = serde_json::from_str(&cdoc).unwrap();
    assert_eq!(v.get("1").unwrap().get("name").unwrap().as_str().unwrap(), "a\nb");
}

#[test]
fn persistence_after_every_kind_of_mutation() {
    let mut m = Market::new();
    m.add_client(1, client("Ada", "Lovelace", 50));
    m.add_product(1, product("tea", 30, 2));
    assert_eq!(m.buy(1, 1), BuyOutcome::Bought);
    m.delete_client(1);
    let r = Market::load(&m.clients_document(), &m.products_document());
    assert!(r.get_client(1).is_none());
    assert_eq!(r.get_product(1).unwrap().stock, 1);
}

#[test]
fn duplicate_ids_in_a_document_keep_the_last_entry() {
    let doc = b"{\"1\":{\"name\":\"a\",\"surname\":\"b\",\"balance\":5},\"1\":{\"name\":\"c\",\"surname\":\"d\",\"balance\":9}}"
        .to_vec();
    let r = Market::load(&doc, &b"{}".to_vec());
    assert_eq!(r.enumerate_clients().len(), 1);
    let c = r.get_client(1).unwrap();
    assert_eq!(c.name, b"c".to_vec());
    assert_eq!(c.balance, 9);
}

#[test]
fn handwritten_escapes_parse_to_control_bytes() {
    let doc = b"{\"2\":{\"name\":\"x\\u0009y\",\"surname\":\"\\\"q\\\\\",\"balance\":1}}".to_vec();
    let v = parse_clients_doc(&doc).unwrap();
    assert_eq!(v[0].0, 2);
    assert_eq!(v[0].1.name, b"x\ty".to_vec());
    assert_eq!(v[0].1.surname, b"\"q\\".to_vec());
}
