//! Executable encoding and parsing of the snapshot documents, and the
//! persistence surface of the store: `clients_document` / `products_document`
//! produce the bytes to write after a mutation, and `load` rebuilds a store
//! from the two documents, falling back to an empty collection for a
//! document that does not parse.

use vstd::prelude::*;

use crate::codec::{enc_client, enc_client_entry, enc_client_entries, enc_clients_doc, enc_product,
    enc_product_entry, enc_product_entries, enc_products_doc, lemma_clients_doc_round_trip,
    lemma_enc_client_entries_snoc, lemma_enc_product_entries_snoc, lemma_products_doc_round_trip,
    lit_balance, lit_head, lit_price, lit_stock, lit_surname, spec_match, spec_parse_client,
    spec_parse_client_entries, spec_parse_client_entry, spec_parse_clients_doc, spec_parse_product,
    spec_parse_product_entries, spec_parse_product_entry, spec_parse_products_doc};
use crate::digits::{encode_u64, parse_u64, spec_digits};
use crate::market::Market;
use crate::records::{Client, ClientView, Product, ProductView};
use crate::table::map_of;
use crate::text::{append_escaped, parse_string};

verus! {

fn lit_head_vec() -> (r: Vec<u8>)
    ensures
        r@ == lit_head(),
{
    let mut v: Vec<u8> = Vec::new();
    v.push(0x7b);
    v.push(0x22);
    v.push(0x6e);
    v.push(0x61);
    v.push(0x6d);
    v.push(0x65);
    v.push(0x22);
    v.push(0x3a);
    v.push(0x22);
    proof {
        assert(v@ =~= lit_head());
    }
    v
}

fn lit_surname_vec() -> (r: Vec<u8>)
    ensures
        r@ == lit_surname(),
{
    let mut v: Vec<u8> = Vec::new();
    v.push(0x2c);
    v.push(0x22);
    v.push(0x73);
    v.push(0x75);
    v.push(0x72);
    v.push(0x6e);
    v.push(0x61);
    v.push(0x6d);
    v.push(0x65);
    v.push(0x22);
    v.push(0x3a);
    v.push(0x22);
    proof {
        assert(v@ =~= lit_surname());
    }
    v
}

fn lit_balance_vec() -> (r: Vec<u8>)
    ensures
        r@ == lit_balance(),
{
    let mut v: Vec<u8> = Vec::new();
    v.push(0x2c);
    v.push(0x22);
    v.push(0x62);
    v.push(0x61);
    v.push(0x6c);
    v.push(0x61);
    v.push(0x6e);
    v.push(0x63);
    v.push(0x65);
    v.push(0x22);
    v.push(0x3a);
    proof {
        assert(v@ =~= lit_balance());
    }
    v
}

fn lit_price_vec() -> (r: Vec<u8>)
    ensures
        r@ == lit_price(),
{
    let mut v: Vec<u8> = Vec::new();
    v.push(0x2c);
    v.push(0x22);
    v.push(0x70);
    v.push(0x72);
    v.push(0x69);
    v.push(0x63);
    v.push(0x65);
    v.push(0x22);
    v.push(0x3a);
    proof {
        assert(v@ =~= lit_price());
    }
    v
}

fn lit_stock_vec() -> (r: Vec<u8>)
    ensures
        r@ == lit_stock(),
{
    let mut v: Vec<u8> = Vec::new();
    v.push(0x2c);
    v.push(0x22);
    v.push(0x73);
    v.push(0x74);
    v.push(0x6f);
    v.push(0x63);
    v.push(0x6b);
    v.push(0x22);
    v.push(0x3a);
    proof {
        assert(v@ =~= lit_stock());
    }
    v
}

/// Match a fixed byte sequence at position `i`.
fn match_lit(s: &Vec<u8>, i: usize, lit: &Vec<u8>) -> (r: Option<usize>)
    ensures
        match r {
            Some(j) => spec_match(s@, i as int, lit@) == Some(j as int) && j as int == i
                + lit@.len() && j <= s.len(),
            None => spec_match(s@, i as int, lit@) is None,
        },
{
    if i > s.len() || s.len() - i < lit.len() {
        return None;
    }
    let slen = s.len();
    let n = lit.len();
    for k in 0..n
        invariant
            n == lit@.len(),
            slen == s@.len(),
            i + n <= slen,
            forall|t: int| 0 <= t < k ==> s@[i + t] == lit@[t],
    {
        if s[i + k] != lit[k] {
            proof {
                assert(s@.subrange(i as int, i + lit@.len())[k as int] != lit@[k as int]);
            }
            return None;
        }
    }
    proof {
        assert(s@.subrange(i as int, i + lit@.len()) =~= lit@);
    }
    Some(i + n)
}

/// Append the document bytes of one client record.
fn encode_client(out: &mut Vec<u8>, c: &Client)
    ensures
        final(out)@ == old(out)@ + enc_client(c@),
{
    let mut lit = lit_head_vec();
    out.append(&mut lit);
    append_escaped(out, &c.name);
    out.push(0x22);
    let mut lit = lit_surname_vec();
    out.append(&mut lit);
    append_escaped(out, &c.surname);
    out.push(0x22);
    let mut lit = lit_balance_vec();
    out.append(&mut lit);
    let mut ds = encode_u64(c.balance);
    out.append(&mut ds);
    out.push(0x7d);
    proof {
        assert(out@ =~= old(out)@ + enc_client(c@));
    }
}

/// Append the document bytes of one product record.
fn encode_product(out: &mut Vec<u8>, p: &Product)
    ensures
        final(out)@ == old(out)@ + enc_product(p@),
{
    let mut lit = lit_head_vec();
    out.append(&mut lit);
    append_escaped(out, &p.name);
    out.push(0x22);
    let mut lit = lit_price_vec();
    out.append(&mut lit);
    let mut ds = encode_u64(p.price);
    out.append(&mut ds);
    let mut lit = lit_stock_vec();
    out.append(&mut lit);
    let mut ds = encode_u64(p.stock as u64);
    out.append(&mut ds);
    out.push(0x7d);
    proof {
        assert(out@ =~= old(out)@ + enc_product(p@));
    }
}

/// Append the document bytes of one keyed client entry.
fn encode_client_entry(out: &mut Vec<u8>, id: u32, c: &Client)
    ensures
        final(out)@ == old(out)@ + enc_client_entry((id, c@)),
{
    out.push(0x22);
    let mut ds = encode_u64(id as u64);
    out.append(&mut ds);
    out.push(0x22);
    out.push(0x3a);
    encode_client(out, c);
    proof {
        assert(out@ =~= old(out)@ + enc_client_entry((id, c@)));
    }
}

/// Append the document bytes of one keyed product entry.
fn encode_product_entry(out: &mut Vec<u8>, id: u32, p: &Product)
    ensures
        final(out)@ == old(out)@ + enc_product_entry((id, p@)),
{
    out.push(0x22);
    let mut ds = encode_u64(id as u64);
    out.append(&mut ds);
    out.push(0x22);
    out.push(0x3a);
    encode_product(out, p);
    proof {
        assert(out@ =~= old(out)@ + enc_product_entry((id, p@)));
    }
}

/// Parse one client record at position `i`.
fn parse_client(s: &Vec<u8>, i: usize) -> (r: Option<(Client, usize)>)
    ensures
        match r {
            Some((c, j)) => spec_parse_client(s@, i as int) == Some((c@, j as int)) && i < j
                <= s.len(),
            None => spec_parse_client(s@, i as int) is None,
        },
{
    let lit = lit_head_vec();
    let i1 = match match_lit(s, i, &lit) {
        Some(j) => j,
        None => {
            return None;
        },
    };
    let (name, i2) = match parse_string(s, i1) {
        Some(x) => x,
        None => {
            return None;
        },
    };
    let lit = lit_surname_vec();
    let i3 = match match_lit(s, i2, &lit) {
        Some(j) => j,
        None => {
            return None;
        },
    };
    let (surname, i4) = match parse_string(s, i3) {
        Some(x) => x,
        None => {
            return None;
        },
    };
    let lit = lit_balance_vec();
    let i5 = match match_lit(s, i4, &lit) {
        Some(j) => j,
        None => {
            return None;
        },
    };
    let (balance, i6) = match parse_u64(s, i5) {
        Some(x) => x,
        None => {
            return None;
        },
    };
    if i6 < s.len() && s[i6] == 0x7d {
        Some((Client { name, surname, balance }, i6 + 1))
    } else {
        None
    }
}

/// Parse one product record at position `i`.
fn parse_product(s: &Vec<u8>, i: usize) -> (r: Option<(Product, usize)>)
    ensures
        match r {
            Some((p, j)) => spec_parse_product(s@, i as int) == Some((p@, j as int)) && i < j
                <= s.len(),
            None => spec_parse_product(s@, i as int) is None,
        },
{
    let lit = lit_head_vec();
    let i1 = match match_lit(s, i, &lit) {
        Some(j) => j,
        None => {
            return None;
        },
    };
    let (name, i2) = match parse_string(s, i1) {
        Some(x) => x,
        None => {
            return None;
        },
    };
    let lit = lit_price_vec();
    let i3 = match match_lit(s, i2, &lit) {
        Some(j) => j,
        None => {
            return None;
        },
    };
    let (price, i4) = match parse_u64(s, i3) {
        Some(x) => x,
        None => {
            return None;
        },
    };
    let lit = lit_stock_vec();
    let i5 = match match_lit(s, i4, &lit) {
        Some(j) => j,
        None => {
            return None;
        },
    };
    let (stock, i6) = match parse_u64(s, i5) {
        Some(x) => x,
        None => {
            return None;
        },
    };
    if stock <= u32::MAX as u64 && i6 < s.len() && s[i6] == 0x7d {
        Some((Product { name, price, stock: stock as u32 }, i6 + 1))
    } else {
        None
    }
}

/// Parse one keyed client entry at position `i`.
fn parse_client_entry(s: &Vec<u8>, i: usize) -> (r: Option<((u32, Client), usize)>)
    ensures
        match r {
            Some((e, j)) => spec_parse_client_entry(s@, i as int) == Some(
                ((e.0, e.1@), j as int),
            ) && i < j <= s.len(),
            None => spec_parse_client_entry(s@, i as int) is None,
        },
{
    if i >= s.len() || s[i] != 0x22 {
        return None;
    }
    let (id64, j) = match parse_u64(s, i + 1) {
        Some(x) => x,
        None => {
            return None;
        },
    };
    if id64 > u32::MAX as u64 {
        return None;
    }
    let id = id64 as u32;
    let mut sep: Vec<u8> = Vec::new();
    sep.push(0x22);
    sep.push(0x3a);
    proof {
        assert(sep@ =~= seq![0x22u8, 0x3a]);
    }
    let j2 = match match_lit(s, j, &sep) {
        Some(x) => x,
        None => {
            return None;
        },
    };
    match parse_client(s, j2) {
        Some((c, j3)) => Some(((id, c), j3)),
        None => None,
    }
}

/// Parse one keyed product entry at position `i`.
fn parse_product_entry(s: &Vec<u8>, i: usize) -> (r: Option<((u32, Product), usize)>)
    ensures
        match r {
            Some((e, j)) => spec_parse_product_entry(s@, i as int) == Some(
                ((e.0, e.1@), j as int),
            ) && i < j <= s.len(),
            None => spec_parse_product_entry(s@, i as int) is None,
        },
{
    if i >= s.len() || s[i] != 0x22 {
        return None;
    }
    let (id64, j) = match parse_u64(s, i + 1) {
        Some(x) => x,
        None => {
            return None;
        },
    };
    if id64 > u32::MAX as u64 {
        return None;
    }
    let id = id64 as u32;
    let mut sep: Vec<u8> = Vec::new();
    sep.push(0x22);
    sep.push(0x3a);
    proof {
        assert(sep@ =~= seq![0x22u8, 0x3a]);
    }
    let j2 = match match_lit(s, j, &sep) {
        Some(x) => x,
        None => {
            return None;
        },
    };
    match parse_product(s, j2) {
        Some((p, j3)) => Some(((id, p), j3)),
        None => None,
    }
}

/// Parse a non-empty comma-separated client entry list at position `i`.
fn parse_client_entries(s: &Vec<u8>, i: usize) -> (r: Option<(Vec<(u32, Client)>, usize)>)
    ensures
        match r {
            Some((v, j)) => spec_parse_client_entries(s@, i as int) == Some(
                (v@.map_values(|e: (u32, Client)| (e.0, e.1@)), j as int),
            ) && i < j <= s.len(),
            None => spec_parse_client_entries(s@, i as int) is None,
        },
    decreases s@.len() - i,
{
    let (e0, j) = match parse_client_entry(s, i) {
        Some(x) => x,
        None => {
            return None;
        },
    };
    let ghost e0v = (e0.0, e0.1@);
    if j < s.len() && s[j] == 0x2c {
        match parse_client_entries(s, j + 1) {
            Some((mut rest, k)) => {
                let ghost rv = rest@;
                rest.insert(0, e0);
                proof {
                    assert(rest@.map_values(|e: (u32, Client)| (e.0, e.1@)) =~= seq![e0v]
                        + rv.map_values(|e: (u32, Client)| (e.0, e.1@)));
                }
                Some((rest, k))
            },
            None => None,
        }
    } else {
        let mut v: Vec<(u32, Client)> = Vec::new();
        v.push(e0);
        proof {
            assert(v@.map_values(|e: (u32, Client)| (e.0, e.1@)) =~= seq![e0v]);
        }
        Some((v, j))
    }
}

/// Parse a non-empty comma-separated product entry list at position `i`.
fn parse_product_entries(s: &Vec<u8>, i: usize) -> (r: Option<(Vec<(u32, Product)>, usize)>)
    ensures
        match r {
            Some((v, j)) => spec_parse_product_entries(s@, i as int) == Some(
                (v@.map_values(|e: (u32, Product)| (e.0, e.1@)), j as int),
            ) && i < j <= s.len(),
            None => spec_parse_product_entries(s@, i as int) is None,
        },
    decreases s@.len() - i,
{
    let (e0, j) = match parse_product_entry(s, i) {
        Some(x) => x,
        None => {
            return None;
        },
    };
    let ghost e0v = (e0.0, e0.1@);
    if j < s.len() && s[j] == 0x2c {
        match parse_product_entries(s, j + 1) {
            Some((mut rest, k)) => {
                let ghost rv = rest@;
                rest.insert(0, e0);
                proof {
                    assert(rest@.map_values(|e: (u32, Product)| (e.0, e.1@)) =~= seq![e0v]
                        + rv.map_values(|e: (u32, Product)| (e.0, e.1@)));
                }
                Some((rest, k))
            },
            None => None,
        }
    } else {
        let mut v: Vec<(u32, Product)> = Vec::new();
        v.push(e0);
        proof {
            assert(v@.map_values(|e: (u32, Product)| (e.0, e.1@)) =~= seq![e0v]);
        }
        Some((v, j))
    }
}

/// Parse a whole client document.
pub fn parse_clients_doc(s: &Vec<u8>) -> (r: Option<Vec<(u32, Client)>>)
    ensures
        match r {
            Some(v) => spec_parse_clients_doc(s@) == Some(
                v@.map_values(|e: (u32, Client)| (e.0, e.1@)),
            ),
            None => spec_parse_clients_doc(s@) is None,
        },
{
    if s.len() < 2 || s[0] != 0x7b {
        return None;
    }
    if s[1] == 0x7d {
        if s.len() == 2 {
            let v: Vec<(u32, Client)> = Vec::new();
            proof {
                assert(v@.map_values(|e: (u32, Client)| (e.0, e.1@)) =~= Seq::<
                    (u32, ClientView),
                >::empty());
            }
            return Some(v);
        }
        return None;
    }
    match parse_client_entries(s, 1) {
        Some((v, j)) => {
            if j == s.len() - 1 && s[j] == 0x7d {
                Some(v)
            } else {
                None
            }
        },
        None => None,
    }
}

/// Parse a whole product document.
pub fn parse_products_doc(s: &Vec<u8>) -> (r: Option<Vec<(u32, Product)>>)
    ensures
        match r {
            Some(v) => spec_parse_products_doc(s@) == Some(
                v@.map_values(|e: (u32, Product)| (e.0, e.1@)),
            ),
            None => spec_parse_products_doc(s@) is None,
        },
{
    if s.len() < 2 || s[0] != 0x7b {
        return None;
    }
    if s[1] == 0x7d {
        if s.len() == 2 {
            let v: Vec<(u32, Product)> = Vec::new();
            proof {
                assert(v@.map_values(|e: (u32, Product)| (e.0, e.1@)) =~= Seq::<
                    (u32, ProductView),
                >::empty());
            }
            return Some(v);
        }
        return None;
    }
    match parse_product_entries(s, 1) {
        Some((v, j)) => {
            if j == s.len() - 1 && s[j] == 0x7d {
                Some(v)
            } else {
                None
            }
        },
        None => None,
    }
}

impl Market {
    /// The client document for the current state; written out whole after
    /// every mutation.
    pub fn clients_document(&self) -> (r: Vec<u8>)
        ensures
            r@ == enc_clients_doc(self.client_entries()),
    {
        let ghost es = self.client_entries();
        let mut out: Vec<u8> = Vec::new();
        out.push(0x7b);
        let n = self.clients.len();
        for i in 0..n
            invariant
                n == self.clients@.len(),
                out@ == seq![0x7bu8] + enc_client_entries(es.take(i as int)),
                es == self.client_entries(),
        {
            if i > 0 {
                out.push(0x2c);
            }
            let e = &self.clients[i];
            encode_client_entry(&mut out, e.0, &e.1);
            proof {
                lemma_enc_client_entries_snoc(es.take(i as int), es[i as int]);
                assert(es.take(i as int).push(es[i as int]) =~= es.take(i as int + 1));
                assert((e.0, e.1@) == es[i as int]);
                if i == 0 {
                    assert(out@ =~= seq![0x7bu8] + enc_client_entries(es.take(i as int + 1)));
                } else {
                    assert(out@ =~= seq![0x7bu8] + enc_client_entries(es.take(i as int + 1)));
                }
            }
        }
        out.push(0x7d);
        proof {
            assert(es.take(n as int) =~= es);
            assert(out@ =~= enc_clients_doc(es));
        }
        out
    }

    /// The product document for the current state; written out whole after
    /// every mutation.
    pub fn products_document(&self) -> (r: Vec<u8>)
        ensures
            r@ == enc_products_doc(self.product_entries()),
    {
        let ghost es = self.product_entries();
        let mut out: Vec<u8> = Vec::new();
        out.push(0x7b);
        let n = self.products.len();
        for i in 0..n
            invariant
                n == self.products@.len(),
                out@ == seq![0x7bu8] + enc_product_entries(es.take(i as int)),
                es == self.product_entries(),
        {
            if i > 0 {
                out.push(0x2c);
            }
            let e = &self.products[i];
            encode_product_entry(&mut out, e.0, &e.1);
            proof {
                lemma_enc_product_entries_snoc(es.take(i as int), es[i as int]);
                assert(es.take(i as int).push(es[i as int]) =~= es.take(i as int + 1));
                assert((e.0, e.1@) == es[i as int]);
                assert(out@ =~= seq![0x7bu8] + enc_product_entries(es.take(i as int + 1)));
            }
        }
        out.push(0x7d);
        proof {
            assert(es.take(n as int) =~= es);
            assert(out@ =~= enc_products_doc(es));
        }
        out
    }

    /// Rebuild a store from the two persisted documents. A document that
    /// does not parse yields an empty collection; this is the startup
    /// resilience path, not an error.
    pub fn load(clients_doc: &Vec<u8>, products_doc: &Vec<u8>) -> (m: Market)
        ensures
            m.wf(),
            m.clients_map() == match spec_parse_clients_doc(clients_doc@) {
                Some(es) => map_of(es),
                None => Map::<u32, ClientView>::empty(),
            },
            m.products_map() == match spec_parse_products_doc(products_doc@) {
                Some(es) => map_of(es),
                None => Map::<u32, ProductView>::empty(),
            },
    {
        let mut m = Market::new();
        proof {
            assert(map_of(m.client_entries()) =~= Map::<u32, ClientView>::empty());
            assert(map_of(m.product_entries()) =~= Map::<u32, ProductView>::empty());
        }
        match parse_clients_doc(clients_doc) {
            Some(entries) => {
                let ghost ces = entries@.map_values(|e: (u32, Client)| (e.0, e.1@));
                let n = entries.len();
                for i in 0..n
                    invariant
                        n == entries@.len(),
                        ces == entries@.map_values(|e: (u32, Client)| (e.0, e.1@)),
                        m.wf(),
                        m.clients_map() == map_of(ces.take(i as int)),
                        m.product_entries() == Seq::<(u32, ProductView)>::empty(),
                {
                    let e = &entries[i];
                    m.add_client(e.0, e.1.clone());
                    proof {
                        assert(ces.take(i as int + 1).drop_last() =~= ces.take(i as int));
                        assert(ces.take(i as int + 1).last() == ces[i as int]);
                    }
                }
                proof {
                    assert(ces.take(n as int) =~= ces);
                }
            },
            None => {},
        }
        match parse_products_doc(products_doc) {
            Some(entries) => {
                let ghost pes = entries@.map_values(|e: (u32, Product)| (e.0, e.1@));
                let ghost cm = m.clients_map();
                let n = entries.len();
                for i in 0..n
                    invariant
                        n == entries@.len(),
                        pes == entries@.map_values(|e: (u32, Product)| (e.0, e.1@)),
                        m.wf(),
                        m.clients_map() == cm,
                        m.products_map() == map_of(pes.take(i as int)),
                {
                    let e = &entries[i];
                    m.add_product(e.0, e.1.clone());
                    proof {
                        assert(pes.take(i as int + 1).drop_last() =~= pes.take(i as int));
                        assert(pes.take(i as int + 1).last() == pes[i as int]);
                    }
                }
                proof {
                    assert(pes.take(n as int) =~= pes);
                }
            },
            None => {},
        }
        m
    }
}

/// Round-trip fidelity of persistence: parsing the saved documents of any
/// store yields exactly the store's entries, so a load right after a save
/// rebuilds the same collections (the same set of id/record pairs).
pub proof fn lemma_save_load_round_trip(m: Market)
    ensures
        spec_parse_clients_doc(enc_clients_doc(m.client_entries())) == Some(m.client_entries()),
        spec_parse_products_doc(enc_products_doc(m.product_entries())) == Some(m.product_entries()),
{
    lemma_clients_doc_round_trip(m.client_entries());
    lemma_products_doc_round_trip(m.product_entries());
}

} // verus!
