//! Verified core of a load-testing harness for boolean SQL expressions:
//! the complexity measure by which expressions are grouped, the validation
//! of the command-line settings, and the layout of the Markdown reports.

pub mod cli;
pub mod complexity;
pub mod report;
pub mod report_laws;
pub mod table;
pub mod text;
