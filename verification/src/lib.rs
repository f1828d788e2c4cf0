//! Search engine for matching requested vehicles against a catalog of storage
//! listings: it expands quantity-bearing vehicle requests, groups listings by
//! location, and finds per location the cheapest subset of listings that can
//! simultaneously hold every requested vehicle under a greedy row-based 2-D
//! packing rule.

pub mod bin_packing;
pub mod model;
