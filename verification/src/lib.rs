//! Planning of table lookups over a small plaintext domain.
//!
//! A probe is compared with an enrolled template by a score: the sum, over all features, of
//! the entry that the template's and the probe's quantized values select in the feature's
//! score table. Under encryption only lookups in small tables and additions can be had. So
//! the score tables are shifted to unsigned entries ([`normalize`]), the row that the template
//! selects is written in digits of a small base ([`digits`], [`base`]), every digit position
//! becomes a lookup table of its own ([`lookup`]), and every digit gets its place in an output
//! buffer ([`slots`]), such that adding the looked-up digits place by place gives the digits
//! of the score. [`plan`] puts these steps together for one attempt; [`records`] reads the
//! text of a dataset; [`quantize`] finds the values that index the tables; [`encoding`] fills
//! the containers of the evaluation backend.

pub mod base;
pub mod config;
pub mod digits;
pub mod encoding;
pub mod error;
pub mod lookup;
pub mod normalize;
pub mod plan;
pub mod quantize;
pub mod records;
pub mod slots;
pub mod tables;
pub mod transpose;
