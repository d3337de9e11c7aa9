use vstd::prelude::*;

pub mod occurrence;
pub mod naive;
pub mod bm;
pub mod kmp;
pub mod lut_short;
pub mod fftstr;
pub mod kmer;
pub mod kernel;
pub mod like;
pub mod fm_index;
pub mod trigram_index;
pub mod arena;
pub mod dataset;
pub mod delimited;
pub mod engine;
pub mod fasta;
pub mod dispatch;

verus! {

} // verus!
