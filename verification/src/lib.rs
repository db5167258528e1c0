//! Verified parsers for two classic UNIX name-resolution configuration
//! text formats: the resolver configuration file (nameservers, search
//! domains, sort lists, options) and the static hosts file.
//!
//! Both parsers share one line discipline — split the input bytes into
//! logical lines, discard empty, `#`-comment and space-indented lines,
//! parse every remaining line, and fail on the first malformed one — and
//! both are specified exactly: each public parsing function returns
//! precisely the value that its specification-level grammar assigns to
//! the input bytes.
//!
//! The parsers work on raw bytes. A line that is not valid text is
//! therefore parsed as the bytes it holds (and normally rejected as
//! malformed) rather than silently degraded to an empty line, as a
//! text-decoding reader would do; reading failures are the callers'
//! concern and are reported, not masked.
pub mod dns;
pub mod hosts;
pub mod ip;
pub mod text;
