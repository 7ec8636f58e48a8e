//! The text of the terminal report: frames and number renderings
//! (`format`), section rows (`report`), charts (`chart`), and what holds of
//! the report without colors (`plain`).
pub mod chart;
pub mod format;
pub mod plain;
pub mod report;
