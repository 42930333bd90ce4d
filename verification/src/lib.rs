//! Page-replacement policy simulation: Optimal, Second-Chance and WSClock
//! over a fixed-capacity table of resident pages.

pub mod access;
pub mod candidate;
pub mod optimal;
pub mod params;
pub mod second;
pub mod text;
pub mod trace;
pub mod wsclock;

pub use access::{get_total_faults, AccessResult, AccessType, MemoryAccess, MissReplacement};
pub use params::{parse_number, ORA_SCA_Params, RunError, WSCPR_Params};
pub use trace::{TraceError, TraceErrorKind};
