//! Match finding and sequence production for a zstd encoder, verified.

pub mod bits;
pub mod hash;
pub mod seq_codes;
pub mod sequence;
pub mod gates;
pub mod price;
pub mod tables;
pub mod scan;
pub mod parse_fast;
pub mod parse_dfast;
pub mod chains;
pub mod lazy;
pub mod parse_chain;
pub mod rows;
pub mod parse_row;
pub mod opt_stats;
pub mod opt_tree;
pub mod opt_series;
pub mod opt_near;
pub mod parse_opt;
pub mod level;
pub mod params;
pub mod probe;
pub mod store;
pub mod driver;
pub mod driver_fill;
pub mod strip;
pub mod driver_scan;
pub mod driver_blocks;
pub mod frame;
pub mod tree_frame;
pub mod driver_plan;
pub mod pre_split;
pub mod reach_probe;
pub mod mt;
pub mod capture;
pub mod job;
pub mod twins;
pub mod reuse;
pub mod reuse_chain;
pub mod shift;
pub mod shift_double;
pub mod shift_lazy;
pub mod shift_chain;
pub mod shift_rows;
pub mod slice;
pub mod opt_twins;
pub mod reuse_opt;
pub mod plain_tables;
pub mod pool;
pub mod block_laws;
pub mod price_laws;
pub mod plan_laws;
pub mod ladder_laws;
pub mod split_laws;
pub mod cost_laws;
pub mod search_laws;
pub mod scan_laws;
pub mod series_laws;
pub mod tree_laws;
pub mod gate_laws;
pub mod history_laws;
pub mod config_laws;
