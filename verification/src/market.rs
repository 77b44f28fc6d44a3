//! The record store and the purchase transaction.
//!
//! A `Market` owns two keyed collections, clients and products, each a
//! sequence of `(id, record)` entries with pairwise distinct ids. Every
//! operation states exactly how the two collections change, over their map
//! views.

use vstd::prelude::*;

use crate::records::{Client, ClientView, Product, ProductView};
use crate::table::{keys_unique, lemma_map_of_contains, lemma_map_of_index, lemma_map_of_push,
    lemma_map_of_remove, lemma_map_of_update, map_of};

verus! {

/// The outcome of a purchase attempt.
#[derive(Clone, Copy, Debug, PartialEq, Eq, Structural)]
pub enum BuyOutcome {
    /// Client or product id is unknown; nothing changed.
    NotFound,
    /// The product's stock was zero; nothing changed.
    OutOfStock,
    /// The client's balance was below the price; nothing changed.
    InsufficientFunds,
    /// The balance was debited and the stock decremented.
    Bought,
}

/// The in-memory store: clients and products, each keyed by id.
pub struct Market {
    pub clients: Vec<(u32, Client)>,
    pub products: Vec<(u32, Product)>,
}

/// The client collection after a purchase: on success the client's balance
/// drops by the price, otherwise it is unchanged.
pub open spec fn buy_clients_post(
    pre: Map<u32, ClientView>,
    c: u32,
    price: u64,
    r: BuyOutcome,
) -> Map<u32, ClientView> {
    if r == BuyOutcome::Bought {
        pre.insert(
            c,
            ClientView { balance: (pre[c].balance - price) as u64, ..pre[c] },
        )
    } else {
        pre
    }
}

/// The product collection after a purchase: on success the product's stock
/// drops by one, otherwise it is unchanged.
pub open spec fn buy_products_post(
    pre: Map<u32, ProductView>,
    p: u32,
    r: BuyOutcome,
) -> Map<u32, ProductView> {
    if r == BuyOutcome::Bought {
        pre.insert(p, ProductView { stock: (pre[p].stock - 1) as u32, ..pre[p] })
    } else {
        pre
    }
}

/// Which outcome a purchase must report, given the pre-state: unknown ids
/// first, then out-of-stock, then insufficient funds; a balance equal to the
/// price is enough to buy.
pub open spec fn buy_outcome(
    clients: Map<u32, ClientView>,
    products: Map<u32, ProductView>,
    c: u32,
    p: u32,
) -> BuyOutcome {
    if !clients.contains_key(c) || !products.contains_key(p) {
        BuyOutcome::NotFound
    } else if products[p].stock == 0 {
        BuyOutcome::OutOfStock
    } else if clients[c].balance < products[p].price {
        BuyOutcome::InsufficientFunds
    } else {
        BuyOutcome::Bought
    }
}

impl Market {
    /// The client entries, as mathematical values, in store order.
    pub open spec fn client_entries(self) -> Seq<(u32, ClientView)> {
        self.clients@.map_values(|e: (u32, Client)| (e.0, e.1@))
    }

    /// The product entries, as mathematical values, in store order.
    pub open spec fn product_entries(self) -> Seq<(u32, ProductView)> {
        self.products@.map_values(|e: (u32, Product)| (e.0, e.1@))
    }

    /// The client collection as a map from id to client.
    pub open spec fn clients_map(self) -> Map<u32, ClientView> {
        map_of(self.client_entries())
    }

    /// The product collection as a map from id to product.
    pub open spec fn products_map(self) -> Map<u32, ProductView> {
        map_of(self.product_entries())
    }

    /// Well-formed: ids are unique within each collection.
    pub open spec fn wf(self) -> bool {
        keys_unique(self.client_entries()) && keys_unique(self.product_entries())
    }

    /// An empty store.
    pub fn new() -> (m: Market)
        ensures
            m.wf(),
            m.client_entries() =~= Seq::<(u32, ClientView)>::empty(),
            m.product_entries() =~= Seq::<(u32, ProductView)>::empty(),
    {
        Market { clients: Vec::new(), products: Vec::new() }
    }

    /// The index of the client entry with the given id, if any.
    fn find_client(&self, id: u32) -> (r: Option<usize>)
        ensures
            match r {
                Some(i) => i < self.client_entries().len() && self.client_entries()[i as int].0
                    == id,
                None => forall|i: int|
                    0 <= i < self.client_entries().len() ==> self.client_entries()[i].0 != id,
            },
    {
        let n = self.clients.len();
        for i in 0..n
            invariant
                n == self.clients.len(),
                forall|j: int| 0 <= j < i ==> self.client_entries()[j].0 != id,
        {
            if self.clients[i].0 == id {
                return Some(i);
            }
        }
        None
    }

    /// The index of the product entry with the given id, if any.
    fn find_product(&self, id: u32) -> (r: Option<usize>)
        ensures
            match r {
                Some(i) => i < self.product_entries().len() && self.product_entries()[i as int].0
                    == id,
                None => forall|i: int|
                    0 <= i < self.product_entries().len() ==> self.product_entries()[i].0 != id,
            },
    {
        let n = self.products.len();
        for i in 0..n
            invariant
                n == self.products.len(),
                forall|j: int| 0 <= j < i ==> self.product_entries()[j].0 != id,
        {
            if self.products[i].0 == id {
                return Some(i);
            }
        }
        None
    }

    /// Insert a client at `id`, overwriting any existing entry; never fails.
    pub fn add_client(&mut self, id: u32, client: Client)
        requires
            old(self).wf(),
        ensures
            final(self).wf(),
            final(self).clients_map() == old(self).clients_map().insert(id, client@),
            final(self).product_entries() == old(self).product_entries(),
    {
        let ghost pre = self.client_entries();
        match self.find_client(id) {
            Some(i) => {
                proof {
                    lemma_map_of_update(pre, i as int, client@);
                }
                let _ = self.clients.remove(i);
                self.clients.insert(i, (id, client));
                proof {
                    assert(self.client_entries() =~= pre.update(i as int, (id, client@)));
                    assert(pre.update(i as int, (id, client@)) == pre.update(
                        i as int,
                        (pre[i as int].0, client@),
                    ));
                }
            },
            None => {
                proof {
                    lemma_map_of_push(pre, id, client@);
                }
                self.clients.push((id, client));
                proof {
                    assert(self.client_entries() =~= pre.push((id, client@)));
                }
            },
        }
    }

    /// Insert a product at `id`, overwriting any existing entry; never fails.
    pub fn add_product(&mut self, id: u32, product: Product)
        requires
            old(self).wf(),
        ensures
            final(self).wf(),
            final(self).products_map() == old(self).products_map().insert(id, product@),
            final(self).client_entries() == old(self).client_entries(),
    {
        let ghost pre = self.product_entries();
        match self.find_product(id) {
            Some(i) => {
                proof {
                    lemma_map_of_update(pre, i as int, product@);
                }
                let _ = self.products.remove(i);
                self.products.insert(i, (id, product));
                proof {
                    assert(self.product_entries() =~= pre.update(i as int, (id, product@)));
                    assert(pre.update(i as int, (id, product@)) == pre.update(
                        i as int,
                        (pre[i as int].0, product@),
                    ));
                }
            },
            None => {
                proof {
                    lemma_map_of_push(pre, id, product@);
                }
                self.products.push((id, product));
                proof {
                    assert(self.product_entries() =~= pre.push((id, product@)));
                }
            },
        }
    }

    /// Remove the client at `id` if present; reports whether one existed.
    /// A missing id is a normal outcome, not an error.
    pub fn delete_client(&mut self, id: u32) -> (found: bool)
        requires
            old(self).wf(),
        ensures
            final(self).wf(),
            found == old(self).clients_map().contains_key(id),
            final(self).clients_map() == old(self).clients_map().remove(id),
            final(self).product_entries() == old(self).product_entries(),
    {
        let ghost pre = self.client_entries();
        proof {
            lemma_map_of_contains(pre, id);
        }
        match self.find_client(id) {
            Some(i) => {
                proof {
                    lemma_map_of_remove(pre, i as int);
                }
                let _ = self.clients.remove(i);
                proof {
                    assert(self.client_entries() =~= pre.remove(i as int));
                }
                true
            },
            None => {
                proof {
                    assert(self.clients_map() =~= self.clients_map().remove(id));
                }
                false
            },
        }
    }

    /// Remove the product at `id` if present; reports whether one existed.
    /// A missing id is a normal outcome, not an error.
    pub fn delete_product(&mut self, id: u32) -> (found: bool)
        requires
            old(self).wf(),
        ensures
            final(self).wf(),
            found == old(self).products_map().contains_key(id),
            final(self).products_map() == old(self).products_map().remove(id),
            final(self).client_entries() == old(self).client_entries(),
    {
        let ghost pre = self.product_entries();
        proof {
            lemma_map_of_contains(pre, id);
        }
        match self.find_product(id) {
            Some(i) => {
                proof {
                    lemma_map_of_remove(pre, i as int);
                }
                let _ = self.products.remove(i);
                proof {
                    assert(self.product_entries() =~= pre.remove(i as int));
                }
                true
            },
            None => {
                proof {
                    assert(self.products_map() =~= self.products_map().remove(id));
                }
                false
            },
        }
    }

    /// Look up a client by id.
    pub fn get_client(&self, id: u32) -> (r: Option<&Client>)
        requires
            self.wf(),
        ensures
            match r {
                Some(c) => self.clients_map().contains_key(id) && c@ == self.clients_map()[id],
                None => !self.clients_map().contains_key(id),
            },
    {
        proof {
            lemma_map_of_contains(self.client_entries(), id);
        }
        match self.find_client(id) {
            Some(i) => {
                proof {
                    lemma_map_of_index(self.client_entries(), i as int);
                }
                Some(&self.clients[i].1)
            },
            None => None,
        }
    }

    /// Look up a product by id.
    pub fn get_product(&self, id: u32) -> (r: Option<&Product>)
        requires
            self.wf(),
        ensures
            match r {
                Some(p) => self.products_map().contains_key(id) && p@ == self.products_map()[id],
                None => !self.products_map().contains_key(id),
            },
    {
        proof {
            lemma_map_of_contains(self.product_entries(), id);
        }
        match self.find_product(id) {
            Some(i) => {
                proof {
                    lemma_map_of_index(self.product_entries(), i as int);
                }
                Some(&self.products[i].1)
            },
            None => None,
        }
    }

    /// A snapshot of the client entries for display; read-only.
    pub fn enumerate_clients(&self) -> (r: Vec<(u32, Client)>)
        ensures
            r@.map_values(|e: (u32, Client)| (e.0, e.1@)) == self.client_entries(),
    {
        let mut out: Vec<(u32, Client)> = Vec::new();
        let n = self.clients.len();
        for i in 0..n
            invariant
                n == self.clients.len(),
                out@.len() == i,
                forall|k: int| #![trigger out@[k]]
                    0 <= k < i ==> out@[k].0 == self.clients@[k].0 && out@[k].1@
                        == self.clients@[k].1@,
        {
            let e = &self.clients[i];
            let c = e.1.clone();
            out.push((e.0, c));
        }
        proof {
            assert(out@.map_values(|e: (u32, Client)| (e.0, e.1@)) =~= self.client_entries());
        }
        out
    }

    /// A snapshot of the product entries for display; read-only.
    pub fn enumerate_products(&self) -> (r: Vec<(u32, Product)>)
        ensures
            r@.map_values(|e: (u32, Product)| (e.0, e.1@)) == self.product_entries(),
    {
        let mut out: Vec<(u32, Product)> = Vec::new();
        let n = self.products.len();
        for i in 0..n
            invariant
                n == self.products.len(),
                out@.len() == i,
                forall|k: int| #![trigger out@[k]]
                    0 <= k < i ==> out@[k].0 == self.products@[k].0 && out@[k].1@
                        == self.products@[k].1@,
        {
            let e = &self.products[i];
            let p = e.1.clone();
            out.push((e.0, p));
        }
        proof {
            assert(out@.map_values(|e: (u32, Product)| (e.0, e.1@)) =~= self.product_entries());
        }
        out
    }

    /// The purchase transaction: look both records up, reject an unknown id,
    /// an empty stock, or a balance below the price (in that order), and
    /// otherwise debit the balance and decrement the stock together.
    pub fn buy(&mut self, client_id: u32, product_id: u32) -> (r: BuyOutcome)
        requires
            old(self).wf(),
        ensures
            final(self).wf(),
            r == buy_outcome(old(self).clients_map(), old(self).products_map(), client_id,
                product_id),
            final(self).clients_map() == buy_clients_post(old(self).clients_map(), client_id,
                old(self).products_map()[product_id].price, r),
            final(self).products_map() == buy_products_post(old(self).products_map(), product_id,
                r),
    {
        let ghost cpre = self.client_entries();
        let ghost ppre = self.product_entries();
        proof {
            lemma_map_of_contains(cpre, client_id);
            lemma_map_of_contains(ppre, product_id);
        }
        let ci = match self.find_client(client_id) {
            Some(i) => i,
            None => {
                return BuyOutcome::NotFound;
            },
        };
        let pi = match self.find_product(product_id) {
            Some(i) => i,
            None => {
                return BuyOutcome::NotFound;
            },
        };
        proof {
            lemma_map_of_index(cpre, ci as int);
            lemma_map_of_index(ppre, pi as int);
        }
        if self.products[pi].1.stock == 0 {
            return BuyOutcome::OutOfStock;
        }
        if self.clients[ci].1.balance < self.products[pi].1.price {
            return BuyOutcome::InsufficientFunds;
        }
        let price = self.products[pi].1.price;

        proof {
            lemma_map_of_update(cpre, ci as int, ClientView {
                balance: (cpre[ci as int].1.balance - price) as u64,
                ..cpre[ci as int].1
            });
        }
        let (cid, mut client) = self.clients.remove(ci);
        client.balance = client.balance - price;
        self.clients.insert(ci, (cid, client));
        proof {
            assert(self.client_entries() =~= cpre.update(
                ci as int,
                (cpre[ci as int].0, ClientView {
                    balance: (cpre[ci as int].1.balance - price) as u64,
                    ..cpre[ci as int].1
                }),
            ));
        }

        proof {
            lemma_map_of_update(ppre, pi as int, ProductView {
                stock: (ppre[pi as int].1.stock - 1) as u32,
                ..ppre[pi as int].1
            });
        }
        let (pid, mut product) = self.products.remove(pi);
        product.stock = product.stock - 1;
        self.products.insert(pi, (pid, product));
        proof {
            assert(self.product_entries() =~= ppre.update(
                pi as int,
                (ppre[pi as int].0, ProductView {
                    stock: (ppre[pi as int].1.stock - 1) as u32,
                    ..ppre[pi as int].1
                }),
            ));
        }
        BuyOutcome::Bought
    }
}


/// A purchase never drives a balance or a stock below zero: every balance
/// and stock in the post-state is non-negative, and on success the debit and
/// the decrement are exact (no wrap-around), which requires the client to
/// have held at least the price and the product at least one unit.
pub proof fn lemma_buy_never_negative(
    clients: Map<u32, ClientView>,
    products: Map<u32, ProductView>,
    c: u32,
    p: u32,
)
    ensures
        ({
            let r = buy_outcome(clients, products, c, p);
            let cs = buy_clients_post(clients, c, products[p].price, r);
            let ps = buy_products_post(products, p, r);
            &&& forall|id: u32| cs.contains_key(id) ==> (#[trigger] cs[id]).balance as int >= 0
            &&& forall|id: u32| ps.contains_key(id) ==> (#[trigger] ps[id]).stock as int >= 0
            &&& r == BuyOutcome::Bought ==> {
                &&& clients[c].balance >= products[p].price
                &&& products[p].stock >= 1
                &&& cs[c].balance + products[p].price == clients[c].balance
                &&& ps[p].stock + 1 == products[p].stock
            }
        }),
{
}

/// A purchase of a product whose stock is zero reports out-of-stock and
/// changes nothing, whatever the client's balance.
pub proof fn lemma_buy_out_of_stock(
    clients: Map<u32, ClientView>,
    products: Map<u32, ProductView>,
    c: u32,
    p: u32,
)
    requires
        clients.contains_key(c),
        products.contains_key(p),
        products[p].stock == 0,
    ensures
        buy_outcome(clients, products, c, p) == BuyOutcome::OutOfStock,
        buy_clients_post(clients, c, products[p].price, buy_outcome(clients, products, c, p))
            == clients,
        buy_products_post(products, p, buy_outcome(clients, products, c, p)) == products,
{
}

/// A purchase with a balance strictly below the price (and stock available)
/// reports insufficient funds and changes nothing.
pub proof fn lemma_buy_insufficient_funds(
    clients: Map<u32, ClientView>,
    products: Map<u32, ProductView>,
    c: u32,
    p: u32,
)
    requires
        clients.contains_key(c),
        products.contains_key(p),
        products[p].stock > 0,
        clients[c].balance < products[p].price,
    ensures
        buy_outcome(clients, products, c, p) == BuyOutcome::InsufficientFunds,
        buy_clients_post(clients, c, products[p].price, buy_outcome(clients, products, c, p))
            == clients,
        buy_products_post(products, p, buy_outcome(clients, products, c, p)) == products,
{
}

/// A balance exactly equal to the price is enough: the purchase succeeds and
/// leaves the balance at exactly zero.
pub proof fn lemma_buy_exact_balance(
    clients: Map<u32, ClientView>,
    products: Map<u32, ProductView>,
    c: u32,
    p: u32,
)
    requires
        clients.contains_key(c),
        products.contains_key(p),
        products[p].stock > 0,
        clients[c].balance == products[p].price,
    ensures
        buy_outcome(clients, products, c, p) == BuyOutcome::Bought,
        buy_clients_post(clients, c, products[p].price, BuyOutcome::Bought)[c].balance == 0,
{
}

/// Deleting an id that is not in a collection leaves the collection
/// unchanged; with `delete_client` / `delete_product` reporting
/// `found == false` in that case, a no-op deletion changes nothing.
pub proof fn lemma_remove_missing_id<V>(m: Map<u32, V>, id: u32)
    requires
        !m.contains_key(id),
    ensures
        m.remove(id) == m,
{
    assert(m.remove(id) =~= m);
}

} // verus!
