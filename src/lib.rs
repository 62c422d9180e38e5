//! A bounded-depth web crawler whose decisions are verified: link extraction
//! with relative-reference resolution, and a traversal engine that hands out
//! fetches, deduplicates URLs and bounds depth and concurrency. The network
//! stays outside: callers fetch what the engine hands out and report back.

mod crawl;
mod graph;
mod links;
mod site;

pub use crawl::{CrawlError, Crawler, Failure, FetchError, Task};
pub use links::{base_url, extract_urls, is_absolute_url, resolve_link, resolve_links};
pub use site::{crawl_site, fetch_page, Page};
