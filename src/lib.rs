//! Chinese word segmentation: a dictionary-driven maximum-probability
//! segmenter with a hidden-Markov-model fallback, part-of-speech lookup and
//! TF-IDF keyword ranking. Every log-probability is a fixed-point integer.
use vstd::prelude::*;

pub mod text;
pub mod dict;
pub mod route;
pub mod hmm;
pub mod mixed;
pub mod modes;
pub mod small;
pub mod tiling;
pub mod jieba;
pub mod tagging;
pub mod keywords;
pub mod loading;
pub mod laws;
pub mod formats;
pub mod locality;
pub mod boundary;
pub mod frame;

pub use dict::{DictEntry, Dictionary};
pub use hmm::HmmModel;
pub use jieba::{CutMode, Jieba};
pub use keywords::WordWeight;
pub use loading::{DataPaths, LoadError};
pub use tagging::{Tag, Token, TokenizeMode, jieba_token_t};

verus! {

} // verus!
