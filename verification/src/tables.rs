//! Tables of the VP8 format.
//!
//! Each table has a module of its own. The other modules speak of its entries
//! through functions, so that the table itself stays out of their proofs.
pub mod branch_costs;
pub mod coeff_probs;
pub mod mode_probs;
pub mod quantizers;
pub mod update_probs;
