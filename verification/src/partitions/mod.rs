//! Partition schemes: keys, definitions, ranges of keys and the mappings between
//! the keys of connected assets.
pub mod backfill_strategy;
pub mod checked_laws;
pub mod context;
pub mod copies;
pub mod debug;
pub mod definition;
pub mod display_laws;
pub mod factory;
pub mod edge_laws;
pub mod facts;
pub mod form_laws;
pub mod grid;
pub mod grid_compat;
pub mod grid_laws;
pub mod identity;
pub mod key;
pub mod key_laws;
pub mod key_range;
pub mod key_set;
pub mod listing;
pub mod listing_laws;
pub mod mapping;
pub mod mapping_errors;
pub mod mapping_laws;
pub mod mapping_make;
pub mod mapping_rules;
pub mod mapping_same;
pub mod meet;
pub mod meet_laws;
pub mod members;
pub mod product;
pub mod product_laws;
pub mod range_laws;
pub mod readings;
pub mod relation_laws;
pub mod rules;
pub mod scheme_laws;
pub mod to_read;
pub mod to_shift;
pub mod transport;
pub mod transport_laws;
pub mod valid_laws;
