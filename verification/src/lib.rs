//! A forward-in-time genealogy simulator for a two-population, diploid,
//! recombining organism.  One run builds two mutually consistent ancestry
//! records: a full record covering the whole genome and a truncated record
//! restricted to a caller-specified set of genomic keep-intervals.  All
//! genomic coordinates are integer tick positions.

pub mod clip;
pub mod entropy;
pub mod sample;
pub mod sim;
pub mod tables;
