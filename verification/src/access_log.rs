//! The access log: which requests are logged, at which level, and how.
use crate::headers::{first_text, header_contents, lemma_names, read_text};
use crate::number::{decimal, decimal_text};
use crate::text::same;
use axum::http::HeaderMap;
use vstd::prelude::*;

verus! {

/// How loudly a request is logged.
#[derive(Clone, Copy, PartialEq, Eq, Structural, Debug)]
pub enum LogLevel {
    Debug,
    Info,
}

/// Whether a request is logged: every one but that of the start page.
pub fn is_logged(path: &str) -> (r: bool)
    ensures
        r == (path@ != "/"@),
{
    !same(path, "/")
}

/// The level that a request is logged at: quietly where it was answered as
/// asked.
pub fn log_level(status: u16) -> (r: LogLevel)
    ensures
        r == (if status == 200 {
            LogLevel::Debug
        } else {
            LogLevel::Info
        }),
{
    if status == 200 {
        LogLevel::Debug
    } else {
        LogLevel::Info
    }
}

/// The client that a request names, or that it names none.
pub open spec fn client_of(contents: Map<Seq<char>, Seq<Seq<u8>>>) -> Seq<char> {
    match first_text(contents, "user-agent"@) {
        Some(agent) => agent,
        None => "unknown"@,
    }
}

/// The client that a request names, or that it names none.
pub fn user_agent(headers: &HeaderMap) -> (r: String)
    ensures
        r@ == client_of(header_contents(*headers)),
{
    proof {
        lemma_names();
    }
    match read_text(headers, "user-agent") {
        Some(agent) => agent.to_owned(),
        None => "unknown".to_owned(),
    }
}

/// The line that is logged for a request.
pub fn log_line(status: u16, latency: &str, method: &str, path: &str, agent: &str) -> (r: String)
    ensures
        r@ == decimal(status as nat) + " | "@ + latency@ + " | "@ + method@ + " | "@ + path@
            + " | "@ + agent@,
{
    let mut line: String = decimal_text(status as u64);
    line.append(" | ");
    line.append(latency);
    line.append(" | ");
    line.append(method);
    line.append(" | ");
    line.append(path);
    line.append(" | ");
    line.append(agent);
    line
}

} // verus!
