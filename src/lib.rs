//! Threshold secret sharing over GF(256): Shamir's scheme on byte strings, a
//! wrapped-secret envelope, and a variant whose shares carry the share count
//! and metadata tags. Shares travel as `{k}-{i}-{base64(payload)}` text.
use vstd::prelude::*;

pub mod errors;
pub mod gf256;
pub mod payload;
pub mod poly;
pub mod random;
pub mod sss;
pub mod tags;
pub mod text;
pub mod thss;
pub mod wrapped_secrets;

verus! {

} // verus!
