//! Symbolic detection of attractors (terminal strongly connected components)
//! of asynchronous Boolean networks.
//!
//! Sets of (state, colour) pairs are held symbolically as binary decision
//! diagrams by `biodivine_lib_param_bn`; everything above the thin trusted
//! façade in [`symbolic`] — the saturating reachability kernel, the
//! incremental reachability processes, the two process schedulers, the
//! transition guided reduction drivers and both attractor search variants —
//! is verified.

pub mod algorithms;
pub mod process;
pub mod reach;
pub mod scheduler;
pub mod symbolic;
