pub mod id;
pub mod pair;
pub mod bucket;
pub mod tree;
pub mod siblings;
pub mod routing_table;
pub mod node_cache;
pub mod status;
pub mod lookup;
pub mod id_text;
