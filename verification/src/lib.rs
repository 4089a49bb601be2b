//! Local storage analysis: scanning, duplicate detection, relationships,
//! recommendations and the text screens that present them.

pub mod ai;
pub mod archive;
pub mod bulletins;
pub mod canvas;
pub mod clock;
pub mod connections;
pub mod coverage;
pub mod displays;
pub mod double;
pub mod duplicates;
pub mod endpoint;
pub mod guards;
pub mod hashing;
pub mod history;
pub mod index;
pub mod keys;
pub mod labels;
pub mod ledgers;
pub mod measures;
pub mod menu;
pub mod meter;
pub mod model;
pub mod names;
pub mod naming;
pub mod order;
pub mod path;
pub mod policy;
pub mod printouts;
pub mod products;
pub mod progress;
pub mod relationships;
pub mod replies;
pub mod report;
pub mod request;
pub mod review;
pub mod routes;
pub mod rules;
pub mod savings;
pub mod scanner;
pub mod screens;
pub mod session;
pub mod sheet;
pub mod shortlists;
pub mod single;
pub mod size;
pub mod spelling;
pub mod storage;
pub mod summaries;
pub mod tables;
pub mod tally;
pub mod text;
pub mod verdicts;
pub mod width;
pub mod wording;
