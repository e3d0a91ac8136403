//! Content discovery scanner: the decisions behind a directory and virtual-host
//! brute-forcer. The library reads wordlists and expands them into candidate
//! paths, chooses wordlist files, configures the HTTP client, decides which URL
//! or Host each word is probed with, when failed requests are retried, and
//! which responses are reported.

pub mod cli;
pub mod client;
pub mod filter;
pub mod scan;
pub mod text;
pub mod wordlist;
