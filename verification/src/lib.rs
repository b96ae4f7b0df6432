//! Analytics over a shell history: parsing the history file, ranking command
//! frequencies, flagging risky commands and likely typos, and a few
//! light-hearted summaries.

pub mod audit;
pub mod fun;
pub mod history;
pub mod numeral;
pub mod stats;
pub mod tally;
pub mod text;

pub use crate::audit::AuditAnalyzer;
pub use crate::fun::FunAnalyzer;
pub use crate::history::HistoryParser;
pub use crate::stats::StatsAnalyzer;
