//! A small blog engine: markdown articles with embedded LaTeX, HTML-aware
//! summaries, slugs and chronological listings.
pub mod article;
pub mod listing;
pub mod math;
pub mod render;
pub mod submit;
pub mod summary;
pub mod text;
pub mod tracker;
