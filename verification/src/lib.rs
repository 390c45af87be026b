pub mod utils;
pub mod draw;
pub mod vec3;
pub mod stack;
pub mod node;
pub mod node_l2;
pub mod layer;
pub mod set;
pub mod get;
pub mod laws;
pub mod raw_plat;
pub mod opts;
pub mod chunk;
pub mod traverse;
pub mod traverse_laws;
pub mod load;
pub mod resize;
pub mod mesh;
pub mod mca_converter;
