//! The two host facilities the search engine needs beyond computation: a
//! monotonic clock for throughput milestones, and the standard streams for
//! best-effort reporting.
use std::io::Write;
use vstd::prelude::*;

verus! {

#[verifier::external_type_specification]
#[verifier::external_body]
pub struct ExInstant(std::time::Instant);

/// Relies on `std::time::Instant::now`: an opaque reading of the monotonic
/// clock; nothing is assumed of its value.
#[verifier::external_body]
pub(crate) fn instantNow() -> (r: std::time::Instant) {
    std::time::Instant::now()
}

/// Relies on `Instant::saturating_duration_since` and `Duration::as_nanos`:
/// the nanoseconds from `earlier` to `later`, zero when `later` is not the
/// later one; nothing is assumed of the value.
#[verifier::external_body]
pub(crate) fn nanosBetween(later: &std::time::Instant, earlier: &std::time::Instant) -> (r: u128) {
    later.saturating_duration_since(*earlier).as_nanos()
}

/// Relies on `std::io::Stderr::write_fmt` through `writeln!`: prints one
/// status line to standard error.
#[verifier::external_body]
pub(crate) fn writeStderrLine(line: &String) {
    let _ = writeln!(std::io::stderr(), "{}", line);
}

/// Relies on `std::io::Stdout::write_fmt` through `writeln!`: reports one
/// accepted candidate, shown as text, with its word count.
#[verifier::external_body]
pub(crate) fn writeCandidateLine(wordsFound: usize, candidate: &Vec<u8>) {
    let _ = writeln!(
        std::io::stdout(),
        "{}: {}",
        wordsFound,
        String::from_utf8_lossy(candidate),
    );
}

} // verus!
