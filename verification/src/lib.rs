//! Combinatorial shaping codes: bijections between indexes and sequences of
//! amplitudes of bounded weight.
//!
//! [`ad_ess::AdEss`] is arbitrary-distribution enumerative sphere shaping, the
//! code of all sequences whose weight stays within a threshold.
//! [`rts::RTS`] is reverse trellis shaping, the code of the lowest-weight
//! sequences.  Both are built on the [`trellis::Trellis`] of path counts.

pub mod ad_ess;
pub mod ad_ess_coding;
pub mod ad_ess_distribution;
pub mod ad_ess_threshold;
pub mod amplitudes;
pub mod bigint;
pub mod bits;
pub mod counting;
pub mod distribution;
pub mod error;
pub mod laws;
pub mod occurrences;
pub mod rts;
pub mod rts_distribution;
pub mod sums;
pub mod trellis;
pub mod trellis_utils;
pub mod utils;
