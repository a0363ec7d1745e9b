//! The logic of a Matrix bot that watches local news feeds and public warnings.

pub mod alerts;
pub mod article;
pub mod bytes;
pub mod candidates;
pub mod cluster;
pub mod commands;
pub mod config;
pub mod dates;
pub mod digest;
pub mod disasters;
pub mod distance;
pub mod dwd;
pub mod feed;
pub mod filter;
pub mod geocode;
pub mod html;
pub mod ieee;
pub mod item;
pub mod json;
pub mod ledger;
pub mod markup;
pub mod num;
pub mod pipeline;
pub mod readable;
pub mod schedule;
pub mod sources;
pub mod stats;
pub mod streets;
pub mod text;
pub mod url;
pub mod weather;
pub mod words;
