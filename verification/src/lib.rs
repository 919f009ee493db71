//! Scrupy: a spider framework in the manner of Scrapy.
//!
//! An engine hands requests, in the order a scheduler keeps them, to workers;
//! each request passes a chain of downloader middlewares, is downloaded, and
//! its response passes the chain back before a spider parses it into new
//! requests and items, and the items pass a chain of item pipelines.
pub mod downloader;
pub mod scheduler;
pub mod downloader_middleware;
pub mod item_pipeline;
pub mod spider;
pub mod engine;
pub mod devil;
