# zyraxbuster

A directory and virtual-host brute-forcer whose decision logic is verified with Verus.

- `src/` — the verified library:
  - `text.rs`: whitespace trimming, splitting, `u16` parsing and decimal printing on characters;
  - `wordlist.rs`: reading words from a wordlist's text, candidate paths with extensions,
    choosing and resolving wordlist files;
  - `filter.rs`: status-code sets and the reporting rule (whitelist, blacklist, lengths);
  - `scan.rs`: probe URLs and Host names, retry decisions, hits, user agents, scan settings;
  - `client.rs`: `-H` header parsing into a header map and the HTTP client configuration;
  - `cli.rs`: the options.
- `app/` — the command-line program: argument parsing, file and network I/O, the
  concurrent request loop, progress bar and coloured output.
- `tests/` — tests of the library, several against the standard library's own behaviour.
