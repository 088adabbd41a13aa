//! The verified core of an HEVC (H.265) decoder.

pub mod arith;
pub mod binarization;
pub mod cabac;
pub mod coefficient_code;
pub mod ctu;
pub mod deblock;
pub mod deblock_laws;
pub mod decoder;
pub mod dpb;
pub mod edge_laws;
pub mod engine_laws;
pub mod error;
pub mod filters;
pub mod frame;
pub mod mcscratch;
pub mod nal;
pub mod order_laws;
pub mod pic;
pub mod picture_laws;
pub mod pixel;
pub mod ps;
pub mod recon;
pub mod recon_laws;
pub mod reference_laws;
pub mod reflists;
pub mod residual;
pub mod rps;
pub mod sample_laws;
pub mod sao;
pub mod sao_laws;
mod share;
pub mod slice;
pub mod stream;
pub mod stream_laws;
pub mod tables;
pub mod transform_laws;
pub mod tree_laws;
pub mod unit_code;
pub mod unit_laws;
pub mod validity;
pub mod weight_laws;
