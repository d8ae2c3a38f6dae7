//! Linear-time permutation arguments (BiPerm and ProdPerm) over the BN254
//! scalar field, with the sumcheck, zerocheck and product-check building
//! blocks they share.

pub mod biperm;
pub mod completeness;
pub mod eq;
pub mod error;
pub mod field;
pub mod hyrax;
pub mod interp;
pub mod mle;
pub mod pcs;
pub mod permutation;
pub mod prodcheck;
pub mod prodperm;
pub mod sumcheck;
pub mod sums;
pub mod transcript;
pub mod zerocheck;
