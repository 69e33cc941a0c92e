//! Page cursor logic shared by every paginated crawl.
//!
//! A paginated response carries an optional continuation key. The next
//! request is built from that key; an absent key and a present-but-empty
//! key both mean the stream is exhausted.

use vstd::prelude::*;

verus! {

/// Number of records requested per page.
pub const PAGE_LIMIT: u64 = 100;

/// The parameters of one paginated request: the continuation key returned
/// by the previous page, and a fixed page limit. Offset-based pagination is
/// never combined with key-based pagination, so `offset` is always zero.
pub struct PageRequest {
    pub key: Vec<u8>,
    pub limit: u64,
    pub offset: u64,
    pub reverse: bool,
    pub count_total: bool,
}

/// A response from the remote that returns a `next_key` for fetching the
/// next page of data.
pub trait PaginatedResponse {
    /// The continuation key this response carries, if any.
    spec fn spec_next_key(&self) -> Option<Seq<u8>>;

    /// Executable access to the continuation key.
    fn next_key(&self) -> (r: Option<Vec<u8>>)
        ensures
            match r {
                Some(k) => self.spec_next_key() == Some(k@),
                None => self.spec_next_key() is None,
            },
    ;
}

/// The crawl over a paginated stream stops at this response: its
/// continuation key is absent or empty.
pub open spec fn cursor_exhausted<T: PaginatedResponse>(resp: T) -> bool {
    match resp.spec_next_key() {
        Some(k) => k.len() == 0,
        None => true,
    }
}

/// Construct the next request to send given the previous response to a
/// paginated query, or `None` when the stream is exhausted. An absent
/// continuation key and a present-but-empty one stop the crawl alike.
pub fn next_page<T: PaginatedResponse>(resp: &T) -> (r: Option<PageRequest>)
    ensures
        r is None <==> cursor_exhausted(*resp),
        match r {
            Some(req) => {
                &&& Some(req.key@) == resp.spec_next_key()
                &&& req.key@.len() > 0
                &&& req.limit == PAGE_LIMIT
                &&& req.offset == 0
                &&& req.reverse == false
                &&& req.count_total == false
            },
            None => true,
        },
{
    match resp.next_key() {
        Some(key) => {
            if key.len() == 0 {
                None
            } else {
                Some(
                    PageRequest {
                        key,
                        limit: PAGE_LIMIT,
                        offset: 0,
                        reverse: false,
                        count_total: false,
                    },
                )
            }
        },
        None => None,
    }
}

} // verus!
