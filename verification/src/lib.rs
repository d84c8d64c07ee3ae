//! Boolean circuits, garbling algebra, one-hot garbling helpers and
//! oblivious-transfer support code, with their behaviour stated as
//! Verus contracts.

pub mod wire;
pub mod gate;
pub mod circuit;
pub mod execution;
pub mod bristol;
pub mod gadgets;
pub mod gadget_laws;
pub mod input_map;
pub mod label;
pub mod halfgate;
pub mod privacy_free;
pub mod garbler;
pub mod evaluator;
pub mod pf_parties;
pub mod driver;
pub mod runtime;
pub mod matrix;
pub mod share;
pub mod share_matrix;
pub mod gf256;
pub mod unary;
pub mod gf256_shares;
pub mod gf256_law;
pub mod integer;
pub mod block_hash;
pub mod base_ot;
pub mod pre_ot;
pub mod ferret_params;
pub mod ot_bits;
pub mod iknp;
pub mod feistel;
pub mod link;
pub mod context;
pub mod one_hot_ops;
pub mod integer_gadgets;
pub mod exp_mod;
pub mod two_party;
pub mod reduction_law;
pub mod product_law;
pub mod exp_law;
pub mod ggm;
pub mod spcot;
pub mod cot;
pub mod lpn;
