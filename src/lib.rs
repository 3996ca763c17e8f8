pub mod text;
pub mod ranking;
pub mod cross_rank;
pub mod columns;
pub mod index;
pub mod protocol;
pub mod workbook;
pub mod headers;
pub mod dataset;
pub mod document;
pub mod queries;
pub mod analysis;
pub mod roster;
