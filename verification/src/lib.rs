//! Streaming record processing for biological sequence files: the ordered
//! pipeline that hands records to workers and delivers their results in
//! input order, the sequential driver, the guard against reading a console
//! stream twice, and the writers that format records as bytes.

pub mod cfg;
pub mod cmd;
pub mod control;
pub mod error;
pub mod flow;
pub mod io;
pub mod pipeline;
pub mod ring;
pub mod text;
pub mod var;
