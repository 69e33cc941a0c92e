//! Snapshot of native-token stakers on a proof-of-stake chain.
//!
//! The library is the pagination-and-aggregation core: it walks paginated
//! validator and delegation listings (handed to it page by page), filters
//! out jailed validators, folds every delegation record into a ledger keyed
//! by delegator identity with overflow-safe accumulation, and exports the
//! ledger in a deterministic order.

use vstd::prelude::*;

mod aggregator;
mod amount;
mod cursor;
mod driver;
mod enumerator;
mod error;
mod ledger;
mod order;
mod pages;

pub use aggregator::aggregate_delegations;
pub use aggregator::apply_delegations_page;
pub use aggregator::apply_record;
pub use amount::parse_amount;
pub use driver::percent_progress;
pub use driver::run_snapshot;
pub use ledger::Ledger;
pub use ledger::LedgerEntry;
pub use ledger::accumulate;
pub use ledger::accumulate_all;
pub use ledger::entries_map;
pub use ledger::lemma_accumulate_commutes;
pub use ledger::lemma_accumulation_order_irrelevant;
pub use ledger::lemma_add_commutes;
pub use ledger::sorted_strict;
pub use ledger::spec_add;
pub use ledger::total_of;
pub use aggregator::apply_record_spec;
pub use aggregator::apply_records;
pub use aggregator::record_valid;
pub use aggregator::stream_fold;
pub use amount::all_digits;
pub use amount::dec_val;
pub use cursor::cursor_exhausted;
pub use driver::snapshot_fold;
pub use enumerator::eligible_ids;
pub use enumerator::eligible_of_pages;
pub use enumerator::enumerate_validators;
pub use enumerator::filter_validators_page;
pub use error::SnapshotError;
pub use pages::DelegationRecord;
pub use pages::DelegationsPage;
pub use pages::ValidatorInfo;
pub use pages::ValidatorsPage;
pub use order::str_lex_lt;
pub use cursor::PageRequest;
pub use cursor::PaginatedResponse;
pub use cursor::next_page;
pub use cursor::PAGE_LIMIT;

verus! {

} // verus!
