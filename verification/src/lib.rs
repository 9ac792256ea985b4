//! A verified engine for PDF object-graph surgery.
//!
//! The heart of the crate is an in-memory model of a PDF document: an arena
//! of numbered objects, a trailer dictionary and a page tree.  On that model
//! the crate implements and verifies the operations that rewrite the graph:
//! merging several documents into one, deleting pages, removing objects that
//! look like overlay watermarks, composing image pages and inspecting
//! metadata.  Parsing and serialising PDF bytes, file I/O and image decoding
//! are left to unverified callers, which hand the engine plain values.

pub mod objects;
pub mod document;
pub mod info;
pub mod merge;
pub mod watermark;
pub mod pages;
pub mod images;
pub mod auth;
pub mod downloader;
pub mod md2pdf;
