//! The response envelope of the MCP tools, and page tokens.
use vstd::prelude::*;

verus! {

/// The outcome of a request.
#[derive(Debug, Clone, Copy, PartialEq, Eq)]
pub enum ResponseStatus {
    /// Everything was returned.
    Success,
    /// Some results were returned, with warnings.
    Partial,
    /// The request failed.
    Error,
}

/// Facts about a response.
#[derive(Debug, Clone)]
pub struct ResponseMeta {
    /// Processing time in milliseconds.
    pub took_ms: u64,
    /// Number of matches on the server side.
    pub total_results: usize,
    /// Number of results returned.
    pub returned_results: usize,
    /// Cursor of the next page, if any.
    pub next_page_token: Option<String>,
    /// How old the index is, in milliseconds.
    pub index_staleness_ms: Option<u64>,
}

/// The envelope of every tool response.
#[derive(Debug, Clone)]
pub struct McpResponse<T> {
    /// Request id (a UUID v4).
    pub request_id: String,
    /// Outcome.
    pub status: ResponseStatus,
    /// Non-fatal problems.
    pub warnings: Vec<String>,
    /// Payload, on success.
    pub data: Option<T>,
    /// Facts about the response.
    pub meta: ResponseMeta,
}

/// A fresh random request id: `uuid::Uuid::new_v4()` in its hyphenated text
/// form, 36 characters with hyphens at positions 8, 13, 18 and 23. Which id
/// comes out is left open.
#[verifier::external_body]
fn new_request_id() -> (r: String)
    ensures
        r@.len() == 36,
        r@[8] == '-' && r@[13] == '-' && r@[18] == '-' && r@[23] == '-',
{
    uuid::Uuid::new_v4().to_string()
}

/// A pagination cursor.
#[derive(Debug, Clone)]
pub struct PageToken {
    /// Hash of the query, to check that pages belong together.
    pub query_hash: String,
    /// Offset of the next page.
    pub offset: usize,
}

impl PageToken {
    /// A cursor for `query_hash` at `offset`.
    pub fn new(query_hash: String, offset: usize) -> (r: PageToken)
        ensures
            r.query_hash == query_hash,
            r.offset == offset,
    {
        PageToken { query_hash, offset }
    }
}

impl<T> McpResponse<T> {
    /// A successful response carrying `data`, with a fresh request id, no
    /// warnings, the given counts and time, and no page token or staleness.
    pub fn success(data: T, total: usize, returned: usize, took_ms: u64) -> (r: Self)
        ensures
            r.request_id@.len() == 36,
            r.status == ResponseStatus::Success,
            r.warnings@ == Seq::<String>::empty(),
            r.data == Some(data),
            r.meta.took_ms == took_ms,
            r.meta.total_results == total,
            r.meta.returned_results == returned,
            r.meta.next_page_token is None,
            r.meta.index_staleness_ms is None,
    {
        McpResponse {
            request_id: new_request_id(),
            status: ResponseStatus::Success,
            warnings: Vec::new(),
            data: Some(data),
            meta: ResponseMeta {
                took_ms,
                total_results: total,
                returned_results: returned,
                next_page_token: None,
                index_staleness_ms: None,
            },
        }
    }

    /// A failed response: a fresh request id, the message as its only
    /// warning, no data, zero counts and time.
    pub fn error(message: &str) -> (r: Self)
        ensures
            r.request_id@.len() == 36,
            r.status == ResponseStatus::Error,
            r.warnings.len() == 1,
            r.warnings@[0]@ == message@,
            r.data is None,
            r.meta.took_ms == 0,
            r.meta.total_results == 0,
            r.meta.returned_results == 0,
            r.meta.next_page_token is None,
            r.meta.index_staleness_ms is None,
    {
        let mut warnings: Vec<String> = Vec::new();
        warnings.push(message.to_string());
        McpResponse {
            request_id: new_request_id(),
            status: ResponseStatus::Error,
            warnings,
            data: None,
            meta: ResponseMeta {
                took_ms: 0,
                total_results: 0,
                returned_results: 0,
                next_page_token: None,
                index_staleness_ms: None,
            },
        }
    }

    /// Adds a warning; the response becomes `Partial`.
    pub fn with_warning(self, warning: String) -> (r: Self)
        ensures
            r.warnings@ == self.warnings@.push(warning),
            r.status == ResponseStatus::Partial,
            r.request_id == self.request_id,
            r.data == self.data,
            r.meta == self.meta,
    {
        let mut out = self;
        out.warnings.push(warning);
        out.status = ResponseStatus::Partial;
        out
    }

    /// Sets the next-page cursor.
    pub fn with_page_token(self, token: String) -> (r: Self)
        ensures
            r.meta.next_page_token == Some(token),
            r.meta.took_ms == self.meta.took_ms,
            r.meta.total_results == self.meta.total_results,
            r.meta.returned_results == self.meta.returned_results,
            r.meta.index_staleness_ms == self.meta.index_staleness_ms,
            r.request_id == self.request_id,
            r.status == self.status,
            r.warnings == self.warnings,
            r.data == self.data,
    {
        let mut out = self;
        out.meta.next_page_token = Some(token);
        out
    }

    /// Sets the index staleness.
    pub fn with_staleness(self, ms: u64) -> (r: Self)
        ensures
            r.meta.index_staleness_ms == Some(ms),
            r.meta.took_ms == self.meta.took_ms,
            r.meta.total_results == self.meta.total_results,
            r.meta.returned_results == self.meta.returned_results,
            r.meta.next_page_token == self.meta.next_page_token,
            r.request_id == self.request_id,
            r.status == self.status,
            r.warnings == self.warnings,
            r.data == self.data,
    {
        let mut out = self;
        out.meta.index_staleness_ms = Some(ms);
        out
    }
}

} // verus!
