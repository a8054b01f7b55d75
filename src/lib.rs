//! A query engine over read-only k-d trees with integer coordinates: the
//! nearest point to a query, a capped and optionally sorted radius search,
//! and an unsorted radius search, over two tree layouts and a family of
//! interchangeable result collections.
pub mod distance;
pub mod kdtree;
pub mod result_collection;
pub mod immutable;
