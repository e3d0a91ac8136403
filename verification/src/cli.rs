//! The scanner's options, as the command line gives them.

use vstd::prelude::*;

verus! {

/// Options of a scan. Defaults on the command line: 40 threads, blacklist
/// `404`, a 10 second timeout, user agent `zyraxbuster/0.1`, one retry, no delay.
#[derive(Clone, Debug)]
pub struct Args {
    /// Target base URL, e.g. `https://example.com` (required unless listing wordlists).
    pub url: Option<String>,
    /// Path or short name of the wordlist; auto-detected when absent.
    pub wordlist: Option<String>,
    /// Number of concurrent workers.
    pub threads: usize,
    /// Comma-separated extensions to append, e.g. `php,html,txt`.
    pub extensions: Option<String>,
    /// Comma-separated status codes to show; when given, only these are shown.
    pub status_codes: Option<String>,
    /// Comma-separated status codes to hide when no whitelist is given.
    pub blacklist_codes: String,
    /// Request timeout in seconds.
    pub timeout: u64,
    /// Follow redirects.
    pub follow_redirects: bool,
    /// User-Agent sent with every request, unless a random one is asked for.
    pub user_agent: String,
    /// Send a randomly chosen User-Agent with each request.
    pub random_agent: bool,
    /// Add a trailing slash to each probed word.
    pub add_slash: bool,
    /// File to write the results to.
    pub output: Option<String>,
    /// Write the results as JSON.
    pub json: bool,
    /// Only report responses at least this long (bytes).
    pub min_length: Option<u64>,
    /// Do not report responses of exactly this length (bytes).
    pub exclude_length: Option<u64>,
    /// Extra headers, each written `Key: Value`.
    pub header: Vec<String>,
    /// Skip TLS certificate verification.
    pub insecure: bool,
    /// Retries of a request that failed on the network.
    pub retries: u32,
    /// Delay before each request, in milliseconds.
    pub delay: u64,
    /// List the available wordlists and exit.
    pub list_wordlists: bool,
    /// Fuzz the Host header (`WORD.domain`) instead of the URL path.
    pub vhost: bool,
    /// In vhost mode, drop responses with the same status and size as a baseline request.
    pub auto_filter: bool,
}

} // verus!
