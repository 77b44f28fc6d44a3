//! The snapshot document format: each collection is one textual document,
//! an object mapping the decimal id (as a quoted key) to a record with the
//! collection's fields, e.g.
//! `{"1":{"name":"a","surname":"b","balance":50}}` for clients and
//! `{"1":{"name":"tea","price":30,"stock":2}}` for products.
//!
//! The encoder always emits this exact shape; the parser accepts it and
//! rejects anything else, so a damaged document degrades to an empty
//! collection at load time. Parsing is proved to invert encoding.

use vstd::prelude::*;

use crate::digits::{is_digit, lemma_parse_spec_digits, spec_digits, spec_parse_u64};
use crate::records::{ClientView, ProductView};
use crate::text::{esc, lemma_parse_esc, spec_parse_string};

verus! {

/// `{"name":"` — the opening of both record kinds.
pub open spec fn lit_head() -> Seq<u8> {
    seq![0x7b, 0x22, 0x6e, 0x61, 0x6d, 0x65, 0x22, 0x3a, 0x22]
}

/// `,"surname":"` — between a client's name and surname.
pub open spec fn lit_surname() -> Seq<u8> {
    seq![0x2c, 0x22, 0x73, 0x75, 0x72, 0x6e, 0x61, 0x6d, 0x65, 0x22, 0x3a, 0x22]
}

/// `,"balance":` — between a client's surname and balance.
pub open spec fn lit_balance() -> Seq<u8> {
    seq![0x2c, 0x22, 0x62, 0x61, 0x6c, 0x61, 0x6e, 0x63, 0x65, 0x22, 0x3a]
}

/// A fixed byte sequence at position `i`; on success the position after it.
pub open spec fn spec_match(s: Seq<u8>, i: int, lit: Seq<u8>) -> Option<int> {
    if 0 <= i && i + lit.len() <= s.len() && s.subrange(i, i + lit.len()) == lit {
        Some(i + lit.len())
    } else {
        None
    }
}

/// The document bytes of one client record.
pub open spec fn enc_client(c: ClientView) -> Seq<u8> {
    lit_head() + esc(c.name) + seq![0x22] + lit_surname() + esc(c.surname) + seq![0x22]
        + lit_balance() + spec_digits(c.balance as nat) + seq![0x7d]
}

/// Parse one client record at position `i`.
pub open spec fn spec_parse_client(s: Seq<u8>, i: int) -> Option<(ClientView, int)> {
    match spec_match(s, i, lit_head()) {
        None => None,
        Some(i1) => match spec_parse_string(s, i1) {
            None => None,
            Some((name, i2)) => match spec_match(s, i2, lit_surname()) {
                None => None,
                Some(i3) => match spec_parse_string(s, i3) {
                    None => None,
                    Some((surname, i4)) => match spec_match(s, i4, lit_balance()) {
                        None => None,
                        Some(i5) => match spec_parse_u64(s, i5) {
                            None => None,
                            Some((balance, i6)) => if i6 < s.len() && s[i6] == 0x7d {
                                Some((ClientView { name, surname, balance }, i6 + 1))
                            } else {
                                None
                            },
                        },
                    },
                },
            },
        },
    }
}

/// Parsing inverts encoding for one client record.
#[verifier::rlimit(60)]
pub proof fn lemma_parse_enc_client(c: ClientView, s: Seq<u8>, i: int)
    requires
        0 <= i,
        i + enc_client(c).len() <= s.len(),
        s.subrange(i, i + enc_client(c).len()) == enc_client(c),
    ensures
        spec_parse_client(s, i) == Some((c, i + enc_client(c).len())),
{
    let e = enc_client(c);
    let bn = esc(c.name);
    let bs = esc(c.surname);
    let h = spec_digits(c.balance as nat);
    let p1 = lit_head();
    let p2 = p1 + bn;
    let p3 = p2 + seq![0x22];
    let p4 = p3 + lit_surname();
    let p5 = p4 + bs;
    let p6 = p5 + seq![0x22];
    let p7 = p6 + lit_balance();
    let p8 = p7 + h;
    assert(e == p8 + seq![0x7d]);
    assert(forall|k: int| 0 <= k < e.len() ==> s[i + k] == #[trigger] e[k]) by {
        assert(forall|k: int| 0 <= k < e.len() ==> s.subrange(i, i + e.len())[k] == #[trigger] e[k]);
    }
    // the head literal
    assert(s.subrange(i, i + p1.len() as int) =~= p1) by {
        assert(forall|k: int| 0 <= k < p1.len() ==> #[trigger] p1[k] == e[k]);
    }
    assert(spec_match(s, i, lit_head()) == Some(i + p1.len() as int));
    // the name string, closed by the quote at p2.len()
    assert(s.subrange(i + p1.len(), i + p2.len()) =~= bn) by {
        assert(forall|k: int| 0 <= k < bn.len() ==> #[trigger] bn[k] == e[p1.len() + k]);
    }
    assert(s[i + p2.len()] == e[p2.len() as int] && e[p2.len() as int] == 0x22);
    lemma_parse_esc(c.name, s, i + p1.len() as int);
    assert(spec_parse_string(s, i + p1.len() as int) == Some((c.name, i + p3.len() as int)));
    // the surname separator
    assert(s.subrange(i + p3.len(), i + p4.len()) =~= lit_surname()) by {
        assert(forall|k: int|
            0 <= k < lit_surname().len() ==> #[trigger] lit_surname()[k] == e[p3.len() + k]);
    }
    assert(spec_match(s, i + p3.len() as int, lit_surname()) == Some(i + p4.len() as int));
    // the surname string, closed by the quote at p5.len()
    assert(s.subrange(i + p4.len(), i + p5.len()) =~= bs) by {
        assert(forall|k: int| 0 <= k < bs.len() ==> #[trigger] bs[k] == e[p4.len() + k]);
    }
    assert(s[i + p5.len()] == e[p5.len() as int] && e[p5.len() as int] == 0x22);
    lemma_parse_esc(c.surname, s, i + p4.len() as int);
    assert(spec_parse_string(s, i + p4.len() as int) == Some((c.surname, i + p6.len() as int)));
    // the balance separator
    assert(s.subrange(i + p6.len(), i + p7.len()) =~= lit_balance()) by {
        assert(forall|k: int|
            0 <= k < lit_balance().len() ==> #[trigger] lit_balance()[k] == e[p6.len() + k]);
    }
    assert(spec_match(s, i + p6.len() as int, lit_balance()) == Some(i + p7.len() as int));
    // the balance numeral, followed by the closing brace
    assert(s.subrange(i + p7.len(), i + p8.len()) =~= h) by {
        assert(forall|k: int| 0 <= k < h.len() ==> #[trigger] h[k] == e[p7.len() + k]);
    }
    assert(s[i + p8.len()] == e[p8.len() as int] && e[p8.len() as int] == 0x7d);
    assert(!is_digit(0x7d));
    lemma_parse_spec_digits(c.balance, s, i + p7.len() as int);
    assert(spec_parse_u64(s, i + p7.len() as int) == Some((c.balance, i + p8.len() as int)));
    assert(ClientView { name: c.name, surname: c.surname, balance: c.balance } == c);
}


/// `,"price":` — between a product's name and price.
pub open spec fn lit_price() -> Seq<u8> {
    seq![0x2c, 0x22, 0x70, 0x72, 0x69, 0x63, 0x65, 0x22, 0x3a]
}

/// `,"stock":` — between a product's price and stock.
pub open spec fn lit_stock() -> Seq<u8> {
    seq![0x2c, 0x22, 0x73, 0x74, 0x6f, 0x63, 0x6b, 0x22, 0x3a]
}

/// The document bytes of one product record.
pub open spec fn enc_product(p: ProductView) -> Seq<u8> {
    lit_head() + esc(p.name) + seq![0x22] + lit_price() + spec_digits(p.price as nat)
        + lit_stock() + spec_digits(p.stock as nat) + seq![0x7d]
}

/// Parse one product record at position `i`.
pub open spec fn spec_parse_product(s: Seq<u8>, i: int) -> Option<(ProductView, int)> {
    match spec_match(s, i, lit_head()) {
        None => None,
        Some(i1) => match spec_parse_string(s, i1) {
            None => None,
            Some((name, i2)) => match spec_match(s, i2, lit_price()) {
                None => None,
                Some(i3) => match spec_parse_u64(s, i3) {
                    None => None,
                    Some((price, i4)) => match spec_match(s, i4, lit_stock()) {
                        None => None,
                        Some(i5) => match spec_parse_u64(s, i5) {
                            None => None,
                            Some((stock, i6)) => if stock <= u32::MAX && i6 < s.len() && s[i6]
                                == 0x7d {
                                Some((ProductView { name, price, stock: stock as u32 }, i6 + 1))
                            } else {
                                None
                            },
                        },
                    },
                },
            },
        },
    }
}

/// Parsing inverts encoding for one product record.
#[verifier::rlimit(60)]
pub proof fn lemma_parse_enc_product(p: ProductView, s: Seq<u8>, i: int)
    requires
        0 <= i,
        i + enc_product(p).len() <= s.len(),
        s.subrange(i, i + enc_product(p).len()) == enc_product(p),
    ensures
        spec_parse_product(s, i) == Some((p, i + enc_product(p).len())),
{
    let e = enc_product(p);
    let bn = esc(p.name);
    let hp = spec_digits(p.price as nat);
    let hs = spec_digits(p.stock as nat);
    let p1 = lit_head();
    let p2 = p1 + bn;
    let p3 = p2 + seq![0x22];
    let p4 = p3 + lit_price();
    let p5 = p4 + hp;
    let p6 = p5 + lit_stock();
    let p7 = p6 + hs;
    assert(e == p7 + seq![0x7d]);
    assert(forall|k: int| 0 <= k < e.len() ==> s[i + k] == #[trigger] e[k]) by {
        assert(forall|k: int| 0 <= k < e.len() ==> s.subrange(i, i + e.len())[k] == #[trigger] e[k]);
    }
    // the head literal
    assert(s.subrange(i, i + p1.len() as int) =~= p1) by {
        assert(forall|k: int| 0 <= k < p1.len() ==> #[trigger] p1[k] == e[k]);
    }
    assert(spec_match(s, i, lit_head()) == Some(i + p1.len() as int));
    // the name string, closed by the quote at p2.len()
    assert(s.subrange(i + p1.len(), i + p2.len()) =~= bn) by {
        assert(forall|k: int| 0 <= k < bn.len() ==> #[trigger] bn[k] == e[p1.len() + k]);
    }
    assert(s[i + p2.len()] == e[p2.len() as int] && e[p2.len() as int] == 0x22);
    lemma_parse_esc(p.name, s, i + p1.len() as int);
    assert(spec_parse_string(s, i + p1.len() as int) == Some((p.name, i + p3.len() as int)));
    // the price separator
    assert(s.subrange(i + p3.len(), i + p4.len()) =~= lit_price()) by {
        assert(forall|k: int|
            0 <= k < lit_price().len() ==> #[trigger] lit_price()[k] == e[p3.len() + k]);
    }
    assert(spec_match(s, i + p3.len() as int, lit_price()) == Some(i + p4.len() as int));
    // the price numeral, followed by the comma of the stock separator
    assert(s.subrange(i + p4.len(), i + p5.len()) =~= hp) by {
        assert(forall|k: int| 0 <= k < hp.len() ==> #[trigger] hp[k] == e[p4.len() + k]);
    }
    assert(s[i + p5.len()] == e[p5.len() as int] && e[p5.len() as int] == 0x2c);
    assert(!is_digit(0x2c));
    lemma_parse_spec_digits(p.price, s, i + p4.len() as int);
    assert(spec_parse_u64(s, i + p4.len() as int) == Some((p.price, i + p5.len() as int)));
    // the stock separator
    assert(s.subrange(i + p5.len(), i + p6.len()) =~= lit_stock()) by {
        assert(forall|k: int|
            0 <= k < lit_stock().len() ==> #[trigger] lit_stock()[k] == e[p5.len() + k]);
    }
    assert(spec_match(s, i + p5.len() as int, lit_stock()) == Some(i + p6.len() as int));
    // the stock numeral, followed by the closing brace
    assert(s.subrange(i + p6.len(), i + p7.len()) =~= hs) by {
        assert(forall|k: int| 0 <= k < hs.len() ==> #[trigger] hs[k] == e[p6.len() + k]);
    }
    assert(s[i + p7.len()] == e[p7.len() as int] && e[p7.len() as int] == 0x7d);
    assert(!is_digit(0x7d));
    lemma_parse_spec_digits(p.stock as u64, s, i + p6.len() as int);
    assert(spec_parse_u64(s, i + p6.len() as int) == Some((p.stock as u64, i + p7.len() as int)));
    assert(ProductView { name: p.name, price: p.price, stock: p.stock } == p);
}

/// The document bytes of one keyed client entry: the quoted decimal id, a
/// colon, and the record.
pub open spec fn enc_client_entry(en: (u32, ClientView)) -> Seq<u8> {
    seq![0x22] + spec_digits(en.0 as nat) + seq![0x22, 0x3a] + enc_client(en.1)
}

/// The document bytes of one keyed product entry.
pub open spec fn enc_product_entry(en: (u32, ProductView)) -> Seq<u8> {
    seq![0x22] + spec_digits(en.0 as nat) + seq![0x22, 0x3a] + enc_product(en.1)
}

/// Parse one keyed client entry at position `i`.
pub open spec fn spec_parse_client_entry(s: Seq<u8>, i: int) -> Option<((u32, ClientView), int)> {
    if 0 <= i < s.len() && s[i] == 0x22 {
        match spec_parse_u64(s, i + 1) {
            None => None,
            Some((id, j)) => if id <= u32::MAX {
                match spec_match(s, j, seq![0x22, 0x3a]) {
                    None => None,
                    Some(j2) => match spec_parse_client(s, j2) {
                        None => None,
                        Some((c, j3)) => Some(((id as u32, c), j3)),
                    },
                }
            } else {
                None
            },
        }
    } else {
        None
    }
}

/// Parse one keyed product entry at position `i`.
pub open spec fn spec_parse_product_entry(s: Seq<u8>, i: int) -> Option<((u32, ProductView), int)> {
    if 0 <= i < s.len() && s[i] == 0x22 {
        match spec_parse_u64(s, i + 1) {
            None => None,
            Some((id, j)) => if id <= u32::MAX {
                match spec_match(s, j, seq![0x22, 0x3a]) {
                    None => None,
                    Some(j2) => match spec_parse_product(s, j2) {
                        None => None,
                        Some((p, j3)) => Some(((id as u32, p), j3)),
                    },
                }
            } else {
                None
            },
        }
    } else {
        None
    }
}

/// Parsing inverts encoding for one keyed client entry.
#[verifier::rlimit(60)]
pub proof fn lemma_parse_enc_client_entry(en: (u32, ClientView), s: Seq<u8>, i: int)
    requires
        0 <= i,
        i + enc_client_entry(en).len() <= s.len(),
        s.subrange(i, i + enc_client_entry(en).len()) == enc_client_entry(en),
    ensures
        spec_parse_client_entry(s, i) == Some((en, i + enc_client_entry(en).len())),
{
    let e = enc_client_entry(en);
    let hd = spec_digits(en.0 as nat);
    let p1 = seq![0x22u8];
    let p2 = p1 + hd;
    let p3 = p2 + seq![0x22, 0x3a];
    assert(e == p3 + enc_client(en.1));
    assert(forall|k: int| 0 <= k < e.len() ==> s[i + k] == #[trigger] e[k]) by {
        assert(forall|k: int| 0 <= k < e.len() ==> s.subrange(i, i + e.len())[k] == #[trigger] e[k]);
    }
    assert(s[i] == e[0] && e[0] == 0x22);
    // the id numeral, followed by the closing quote of the key
    assert(s.subrange(i + 1, i + p2.len()) =~= hd) by {
        assert(forall|k: int| 0 <= k < hd.len() ==> #[trigger] hd[k] == e[1 + k]);
    }
    assert(s[i + p2.len()] == e[p2.len() as int] && e[p2.len() as int] == 0x22);
    assert(!is_digit(0x22));
    lemma_parse_spec_digits(en.0 as u64, s, i + 1);
    assert(spec_parse_u64(s, i + 1) == Some((en.0 as u64, i + p2.len() as int)));
    // the quote and colon after the key
    let qc = seq![0x22u8, 0x3a];
    assert(s.subrange(i + p2.len(), i + p3.len()) =~= qc) by {
        assert(forall|k: int| 0 <= k < 2 ==> #[trigger] qc[k] == e[p2.len() + k]);
    }
    assert(spec_match(s, i + p2.len() as int, seq![0x22, 0x3a]) == Some(i + p3.len() as int));
    // the record itself
    assert(s.subrange(i + p3.len(), i + e.len() as int) =~= enc_client(en.1)) by {
        assert(forall|k: int|
            0 <= k < enc_client(en.1).len() ==> #[trigger] enc_client(en.1)[k] == e[p3.len() + k]);
    }
    lemma_parse_enc_client(en.1, s, i + p3.len() as int);
    assert((en.0 as u64) as u32 == en.0);
}

/// Parsing inverts encoding for one keyed product entry.
#[verifier::rlimit(60)]
pub proof fn lemma_parse_enc_product_entry(en: (u32, ProductView), s: Seq<u8>, i: int)
    requires
        0 <= i,
        i + enc_product_entry(en).len() <= s.len(),
        s.subrange(i, i + enc_product_entry(en).len()) == enc_product_entry(en),
    ensures
        spec_parse_product_entry(s, i) == Some((en, i + enc_product_entry(en).len())),
{
    let e = enc_product_entry(en);
    let hd = spec_digits(en.0 as nat);
    let p1 = seq![0x22u8];
    let p2 = p1 + hd;
    let p3 = p2 + seq![0x22, 0x3a];
    assert(e == p3 + enc_product(en.1));
    assert(forall|k: int| 0 <= k < e.len() ==> s[i + k] == #[trigger] e[k]) by {
        assert(forall|k: int| 0 <= k < e.len() ==> s.subrange(i, i + e.len())[k] == #[trigger] e[k]);
    }
    assert(s[i] == e[0] && e[0] == 0x22);
    assert(s.subrange(i + 1, i + p2.len()) =~= hd) by {
        assert(forall|k: int| 0 <= k < hd.len() ==> #[trigger] hd[k] == e[1 + k]);
    }
    assert(s[i + p2.len()] == e[p2.len() as int] && e[p2.len() as int] == 0x22);
    assert(!is_digit(0x22));
    lemma_parse_spec_digits(en.0 as u64, s, i + 1);
    assert(spec_parse_u64(s, i + 1) == Some((en.0 as u64, i + p2.len() as int)));
    let qc = seq![0x22u8, 0x3a];
    assert(s.subrange(i + p2.len(), i + p3.len()) =~= qc) by {
        assert(forall|k: int| 0 <= k < 2 ==> #[trigger] qc[k] == e[p2.len() + k]);
    }
    assert(spec_match(s, i + p2.len() as int, seq![0x22, 0x3a]) == Some(i + p3.len() as int));
    assert(s.subrange(i + p3.len(), i + e.len() as int) =~= enc_product(en.1)) by {
        assert(forall|k: int|
            0 <= k < enc_product(en.1).len() ==> #[trigger] enc_product(en.1)[k] == e[p3.len()
                + k]);
    }
    lemma_parse_enc_product(en.1, s, i + p3.len() as int);
    assert((en.0 as u64) as u32 == en.0);
}


/// The document bytes of a list of client entries, separated by commas.
pub open spec fn enc_client_entries(es: Seq<(u32, ClientView)>) -> Seq<u8>
    decreases es.len(),
{
    if es.len() == 0 {
        Seq::empty()
    } else if es.len() == 1 {
        enc_client_entry(es[0])
    } else {
        enc_client_entry(es[0]) + seq![0x2c] + enc_client_entries(es.skip(1))
    }
}

/// The document bytes of a list of product entries, separated by commas.
pub open spec fn enc_product_entries(es: Seq<(u32, ProductView)>) -> Seq<u8>
    decreases es.len(),
{
    if es.len() == 0 {
        Seq::empty()
    } else if es.len() == 1 {
        enc_product_entry(es[0])
    } else {
        enc_product_entry(es[0]) + seq![0x2c] + enc_product_entries(es.skip(1))
    }
}

/// Parse a non-empty comma-separated list of client entries at position `i`.
pub open spec fn spec_parse_client_entries(s: Seq<u8>, i: int) -> Option<
    (Seq<(u32, ClientView)>, int),
>
    decreases s.len() - i,
{
    match spec_parse_client_entry(s, i) {
        None => None,
        Some((e0, j)) => if !(i < j <= s.len()) {
            None
        } else if j < s.len() && s[j] == 0x2c {
            match spec_parse_client_entries(s, j + 1) {
                None => None,
                Some((rest, k)) => Some((seq![e0] + rest, k)),
            }
        } else {
            Some((seq![e0], j))
        },
    }
}

/// Parse a non-empty comma-separated list of product entries at position `i`.
pub open spec fn spec_parse_product_entries(s: Seq<u8>, i: int) -> Option<
    (Seq<(u32, ProductView)>, int),
>
    decreases s.len() - i,
{
    match spec_parse_product_entry(s, i) {
        None => None,
        Some((e0, j)) => if !(i < j <= s.len()) {
            None
        } else if j < s.len() && s[j] == 0x2c {
            match spec_parse_product_entries(s, j + 1) {
                None => None,
                Some((rest, k)) => Some((seq![e0] + rest, k)),
            }
        } else {
            Some((seq![e0], j))
        },
    }
}

/// The whole client document: the entries wrapped in braces.
pub open spec fn enc_clients_doc(es: Seq<(u32, ClientView)>) -> Seq<u8> {
    seq![0x7b] + enc_client_entries(es) + seq![0x7d]
}

/// The whole product document: the entries wrapped in braces.
pub open spec fn enc_products_doc(es: Seq<(u32, ProductView)>) -> Seq<u8> {
    seq![0x7b] + enc_product_entries(es) + seq![0x7d]
}

/// Parse a whole client document; the entire input must be one object.
pub open spec fn spec_parse_clients_doc(s: Seq<u8>) -> Option<Seq<(u32, ClientView)>> {
    if s.len() >= 2 && s[0] == 0x7b {
        if s[1] == 0x7d {
            if s.len() == 2 {
                Some(Seq::empty())
            } else {
                None
            }
        } else {
            match spec_parse_client_entries(s, 1) {
                None => None,
                Some((es, j)) => if j == s.len() - 1 && s[j] == 0x7d {
                    Some(es)
                } else {
                    None
                },
            }
        }
    } else {
        None
    }
}

/// Parse a whole product document; the entire input must be one object.
pub open spec fn spec_parse_products_doc(s: Seq<u8>) -> Option<Seq<(u32, ProductView)>> {
    if s.len() >= 2 && s[0] == 0x7b {
        if s[1] == 0x7d {
            if s.len() == 2 {
                Some(Seq::empty())
            } else {
                None
            }
        } else {
            match spec_parse_product_entries(s, 1) {
                None => None,
                Some((es, j)) => if j == s.len() - 1 && s[j] == 0x7d {
                    Some(es)
                } else {
                    None
                },
            }
        }
    } else {
        None
    }
}

/// Parsing inverts encoding for a non-empty client entry list followed by a
/// closing brace.
pub proof fn lemma_parse_enc_client_entries(es: Seq<(u32, ClientView)>, s: Seq<u8>, i: int)
    requires
        0 <= i,
        es.len() >= 1,
        i + enc_client_entries(es).len() < s.len(),
        s.subrange(i, i + enc_client_entries(es).len()) == enc_client_entries(es),
        s[i + enc_client_entries(es).len()] == 0x7d,
    ensures
        spec_parse_client_entries(s, i) == Some((es, i + enc_client_entries(es).len())),
    decreases es.len(),
{
    let e = enc_client_entries(es);
    let j = i + e.len();
    assert(forall|k: int| 0 <= k < e.len() ==> s[i + k] == #[trigger] e[k]) by {
        assert(forall|k: int| 0 <= k < e.len() ==> s.subrange(i, j)[k] == #[trigger] e[k]);
    }
    let q1 = enc_client_entry(es[0]);
    if es.len() == 1 {
        lemma_parse_enc_client_entry(es[0], s, i);
        assert(s[j] == 0x7d);
        assert(seq![es[0]] =~= es);
    } else {
        let tail = enc_client_entries(es.skip(1));
        assert(e == q1 + seq![0x2c] + tail);
        assert(s.subrange(i, i + q1.len() as int) =~= q1) by {
            assert(forall|k: int| 0 <= k < q1.len() ==> #[trigger] q1[k] == e[k]);
        }
        lemma_parse_enc_client_entry(es[0], s, i);
        let j1 = i + q1.len() as int;
        assert(s[j1] == e[q1.len() as int] && e[q1.len() as int] == 0x2c);
        assert(s.subrange(j1 + 1, j) =~= tail) by {
            assert(forall|k: int| 0 <= k < tail.len() ==> #[trigger] tail[k] == e[q1.len() + 1 + k]);
        }
        assert(es.skip(1).len() >= 1);
        lemma_parse_enc_client_entries(es.skip(1), s, j1 + 1);
        assert(seq![es[0]] + es.skip(1) =~= es);
    }
}

/// Parsing inverts encoding for a non-empty product entry list followed by a
/// closing brace.
pub proof fn lemma_parse_enc_product_entries(es: Seq<(u32, ProductView)>, s: Seq<u8>, i: int)
    requires
        0 <= i,
        es.len() >= 1,
        i + enc_product_entries(es).len() < s.len(),
        s.subrange(i, i + enc_product_entries(es).len()) == enc_product_entries(es),
        s[i + enc_product_entries(es).len()] == 0x7d,
    ensures
        spec_parse_product_entries(s, i) == Some((es, i + enc_product_entries(es).len())),
    decreases es.len(),
{
    let e = enc_product_entries(es);
    let j = i + e.len();
    assert(forall|k: int| 0 <= k < e.len() ==> s[i + k] == #[trigger] e[k]) by {
        assert(forall|k: int| 0 <= k < e.len() ==> s.subrange(i, j)[k] == #[trigger] e[k]);
    }
    let q1 = enc_product_entry(es[0]);
    if es.len() == 1 {
        lemma_parse_enc_product_entry(es[0], s, i);
        assert(s[j] == 0x7d);
        assert(seq![es[0]] =~= es);
    } else {
        let tail = enc_product_entries(es.skip(1));
        assert(e == q1 + seq![0x2c] + tail);
        assert(s.subrange(i, i + q1.len() as int) =~= q1) by {
            assert(forall|k: int| 0 <= k < q1.len() ==> #[trigger] q1[k] == e[k]);
        }
        lemma_parse_enc_product_entry(es[0], s, i);
        let j1 = i + q1.len() as int;
        assert(s[j1] == e[q1.len() as int] && e[q1.len() as int] == 0x2c);
        assert(s.subrange(j1 + 1, j) =~= tail) by {
            assert(forall|k: int| 0 <= k < tail.len() ==> #[trigger] tail[k] == e[q1.len() + 1 + k]);
        }
        assert(es.skip(1).len() >= 1);
        lemma_parse_enc_product_entries(es.skip(1), s, j1 + 1);
        assert(seq![es[0]] + es.skip(1) =~= es);
    }
}

/// Parsing a whole client document inverts encoding, for any entry list.
pub proof fn lemma_clients_doc_round_trip(es: Seq<(u32, ClientView)>)
    ensures
        spec_parse_clients_doc(enc_clients_doc(es)) == Some(es),
{
    let s = enc_clients_doc(es);
    let e = enc_client_entries(es);
    assert(s.len() == e.len() + 2);
    assert(s[0] == 0x7b);
    assert(s[s.len() - 1] == 0x7d);
    if es.len() == 0 {
        assert(e =~= Seq::<u8>::empty());
        assert(s[1] == 0x7d && s.len() == 2);
        assert(Some(Seq::<(u32, ClientView)>::empty()) == Some(es)) by {
            assert(es =~= Seq::<(u32, ClientView)>::empty());
        }
    } else {
        assert(e[0] == 0x22) by {
            if es.len() == 1 {
                assert(e == enc_client_entry(es[0]));
            }
            assert(enc_client_entry(es[0])[0] == 0x22);
        }
        assert(s[1] == e[0]);
        assert(s.subrange(1, 1 + e.len() as int) =~= e);
        assert(s[1 + e.len() as int] == 0x7d);
        lemma_parse_enc_client_entries(es, s, 1);
    }
}

/// Parsing a whole product document inverts encoding, for any entry list.
pub proof fn lemma_products_doc_round_trip(es: Seq<(u32, ProductView)>)
    ensures
        spec_parse_products_doc(enc_products_doc(es)) == Some(es),
{
    let s = enc_products_doc(es);
    let e = enc_product_entries(es);
    assert(s.len() == e.len() + 2);
    assert(s[0] == 0x7b);
    assert(s[s.len() - 1] == 0x7d);
    if es.len() == 0 {
        assert(e =~= Seq::<u8>::empty());
        assert(s[1] == 0x7d && s.len() == 2);
        assert(Some(Seq::<(u32, ProductView)>::empty()) == Some(es)) by {
            assert(es =~= Seq::<(u32, ProductView)>::empty());
        }
    } else {
        assert(e[0] == 0x22) by {
            if es.len() == 1 {
                assert(e == enc_product_entry(es[0]));
            }
            assert(enc_product_entry(es[0])[0] == 0x22);
        }
        assert(s[1] == e[0]);
        assert(s.subrange(1, 1 + e.len() as int) =~= e);
        assert(s[1 + e.len() as int] == 0x7d);
        lemma_parse_enc_product_entries(es, s, 1);
    }
}


/// Appending one more entry to a client entry list appends a comma (when the
/// list was non-empty) and the entry's bytes.
pub proof fn lemma_enc_client_entries_snoc(es: Seq<(u32, ClientView)>, e: (u32, ClientView))
    ensures
        enc_client_entries(es.push(e)) == if es.len() == 0 {
            enc_client_entry(e)
        } else {
            enc_client_entries(es) + seq![0x2c] + enc_client_entry(e)
        },
    decreases es.len(),
{
    let p = es.push(e);
    assert(p[0] == if es.len() == 0 { e } else { es[0] });
    if es.len() == 0 {
        assert(enc_client_entries(p) == enc_client_entry(e));
    } else if es.len() == 1 {
        assert(p.skip(1) =~= seq![e]);
        assert(enc_client_entries(seq![e]) == enc_client_entry(e));
        assert(enc_client_entries(es) == enc_client_entry(es[0]));
    } else {
        assert(p.skip(1) =~= es.skip(1).push(e));
        lemma_enc_client_entries_snoc(es.skip(1), e);
        assert(enc_client_entry(es[0]) + seq![0x2c] + (enc_client_entries(es.skip(1)) + seq![0x2c]
            + enc_client_entry(e)) =~= (enc_client_entry(es[0]) + seq![0x2c]
            + enc_client_entries(es.skip(1))) + seq![0x2c] + enc_client_entry(e));
    }
}

/// Appending one more entry to a product entry list appends a comma (when
/// the list was non-empty) and the entry's bytes.
pub proof fn lemma_enc_product_entries_snoc(es: Seq<(u32, ProductView)>, e: (u32, ProductView))
    ensures
        enc_product_entries(es.push(e)) == if es.len() == 0 {
            enc_product_entry(e)
        } else {
            enc_product_entries(es) + seq![0x2c] + enc_product_entry(e)
        },
    decreases es.len(),
{
    let p = es.push(e);
    assert(p[0] == if es.len() == 0 { e } else { es[0] });
    if es.len() == 0 {
        assert(enc_product_entries(p) == enc_product_entry(e));
    } else if es.len() == 1 {
        assert(p.skip(1) =~= seq![e]);
        assert(enc_product_entries(seq![e]) == enc_product_entry(e));
        assert(enc_product_entries(es) == enc_product_entry(es[0]));
    } else {
        assert(p.skip(1) =~= es.skip(1).push(e));
        lemma_enc_product_entries_snoc(es.skip(1), e);
        assert(enc_product_entry(es[0]) + seq![0x2c] + (enc_product_entries(es.skip(1)) + seq![0x2c]
            + enc_product_entry(e)) =~= (enc_product_entry(es[0]) + seq![0x2c]
            + enc_product_entries(es.skip(1))) + seq![0x2c] + enc_product_entry(e));
    }
}

} // verus!
