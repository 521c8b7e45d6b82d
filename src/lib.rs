//! A small content-addressed entry store with ordered, tagged links, and the
//! point-of-sale logic built on it: products, baskets, and the positions that
//! tie a product to a basket, with each basket's running sum kept current.
pub mod records;

pub mod store;
pub mod basket;
