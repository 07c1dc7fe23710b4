//! Verified construction of the HTML reports that describe a nominal dataset
//! and the formal concepts that CNC and CNC-BP select in it, together with the
//! command-line and CSV handling that feeds them.

pub mod binary64;
pub mod cli;
pub mod cnc;
pub mod csv;
pub mod dataset;
pub mod html;
pub mod report;
pub mod sorting;
pub mod text;
pub mod view;
