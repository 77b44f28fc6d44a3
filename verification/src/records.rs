//! The record types held by the store: clients and products.
//!
//! Monetary amounts (a client's balance, a product's price) are unsigned
//! integers in the smallest currency unit, and names are held as UTF-8 bytes,
//! so that every field is a plain value that contracts can speak about
//! exactly.

use vstd::prelude::*;

verus! {

/// A client of the market: a name, a surname and a non-negative balance.
pub struct Client {
    pub name: Vec<u8>,
    pub surname: Vec<u8>,
    pub balance: u64,
}

/// A product of the market: a name, a non-negative price and a stock count.
pub struct Product {
    pub name: Vec<u8>,
    pub price: u64,
    pub stock: u32,
}

/// The mathematical value of a `Client`.
pub ghost struct ClientView {
    pub name: Seq<u8>,
    pub surname: Seq<u8>,
    pub balance: u64,
}

/// The mathematical value of a `Product`.
pub ghost struct ProductView {
    pub name: Seq<u8>,
    pub price: u64,
    pub stock: u32,
}

impl View for Client {
    type V = ClientView;

    open spec fn view(&self) -> ClientView {
        ClientView { name: self.name@, surname: self.surname@, balance: self.balance }
    }
}

impl View for Product {
    type V = ProductView;

    open spec fn view(&self) -> ProductView {
        ProductView { name: self.name@, price: self.price, stock: self.stock }
    }
}

impl Clone for Client {
    fn clone(&self) -> (r: Self)
        ensures
            r@ == self@,
    {
        let r = Client {
            name: self.name.clone(),
            surname: self.surname.clone(),
            balance: self.balance,
        };
        proof {
            assert(r.name@ =~= self.name@);
            assert(r.surname@ =~= self.surname@);
        }
        r
    }
}

impl Clone for Product {
    fn clone(&self) -> (r: Self)
        ensures
            r@ == self@,
    {
        let r = Product { name: self.name.clone(), price: self.price, stock: self.stock };
        proof {
            assert(r.name@ =~= self.name@);
        }
        r
    }
}

} // verus!
