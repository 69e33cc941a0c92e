//! The delegation aggregator: one paginated crawl per validator, folding
//! every delegation record's stake into the shared ledger.
//!
//! A record without its balance field, an amount that does not parse, and
//! an accumulation overflow are fatal: the crawl stops at the first such
//! record and reports it, leaving earlier contributions in place.

use vstd::prelude::*;
use crate::amount::all_digits;
use crate::amount::dec_val;
use crate::amount::parse_amount;
use crate::cursor::cursor_exhausted;
use crate::cursor::next_page;
use crate::error::SnapshotError;
use crate::ledger::Ledger;
use crate::ledger::total_of;
use crate::pages::DelegationRecord;
use crate::pages::DelegationsPage;

verus! {

/// The balance string of a record denotes an in-range amount.
pub open spec fn record_valid(rec: DelegationRecord) -> bool {
    &&& rec.balance is Some
    &&& rec.balance->Some_0@.len() > 0
    &&& all_digits(rec.balance->Some_0@)
    &&& dec_val(rec.balance->Some_0@) <= u128::MAX
}

/// What folding one record into the ledger map yields: the updated map, or
/// the fatal condition the record runs into.
pub open spec fn apply_record_spec(m: Map<Seq<char>, u128>, rec: DelegationRecord) -> Result<
    Map<Seq<char>, u128>,
    SnapshotError,
> {
    if rec.balance is None {
        Err(SnapshotError::MissingBalance)
    } else if !record_valid(rec) {
        Err(SnapshotError::InvalidAmount)
    } else if total_of(m, rec.delegator_address@) + dec_val(rec.balance->Some_0@) > u128::MAX {
        Err(SnapshotError::Overflow)
    } else {
        Ok(
            m.insert(
                rec.delegator_address@,
                (total_of(m, rec.delegator_address@) + dec_val(rec.balance->Some_0@)) as u128,
            ),
        )
    }
}

/// Fold records in order until the first fatal one: the map reached and
/// the error, if any.
pub open spec fn apply_records(m: Map<Seq<char>, u128>, recs: Seq<DelegationRecord>) -> (
    Map<Seq<char>, u128>,
    Option<SnapshotError>,
)
    decreases recs.len(),
{
    if recs.len() == 0 {
        (m, None)
    } else {
        match apply_record_spec(m, recs[0]) {
            Ok(m2) => apply_records(m2, recs.drop_first()),
            Err(e) => (m, Some(e)),
        }
    }
}

/// Fold pages in order until the first fatal record or the first page whose
/// continuation key is absent or empty.
pub open spec fn stream_fold(m: Map<Seq<char>, u128>, pages: Seq<DelegationsPage>) -> (
    Map<Seq<char>, u128>,
    Option<SnapshotError>,
)
    decreases pages.len(),
{
    if pages.len() == 0 {
        (m, None)
    } else {
        let (m2, err) = apply_records(m, pages[0].delegation_responses@);
        if err is Some {
            (m2, err)
        } else if cursor_exhausted(pages[0]) {
            (m2, None)
        } else {
            stream_fold(m2, pages.drop_first())
        }
    }
}

/// Fold one delegation record into the ledger: parse its balance and add
/// the amount to its delegator's total. The record's fatal conditions leave
/// the ledger unchanged and surface as the matching error.
pub fn apply_record(ledger: &mut Ledger, record: &DelegationRecord) -> (r: Result<
    (),
    SnapshotError,
>)
    requires
        old(ledger).wf(),
    ensures
        final(ledger).wf(),
        match apply_record_spec(old(ledger)@, *record) {
            Ok(m2) => r is Ok && final(ledger)@ == m2,
            Err(e) => r == Err::<(), SnapshotError>(e) && final(ledger)@ == old(ledger)@,
        },
{
    match &record.balance {
        None => Err(SnapshotError::MissingBalance),
        Some(balance) => {
            match parse_amount(balance.as_str()) {
                None => Err(SnapshotError::InvalidAmount),
                Some(amount) => {
                    let delegator = record.delegator_address.clone();
                    ledger.add(delegator, amount)
                },
            }
        },
    }
}

/// Fold one page's records into the ledger, stopping at the first fatal
/// record.
pub fn apply_delegations_page(ledger: &mut Ledger, page: &DelegationsPage) -> (r: Result<
    (),
    SnapshotError,
>)
    requires
        old(ledger).wf(),
    ensures
        final(ledger).wf(),
        ({
            let (m2, err) = apply_records(old(ledger)@, page.delegation_responses@);
            &&& final(ledger)@ == m2
            &&& match r {
                Ok(()) => err is None,
                Err(e) => err == Some(e),
            }
        }),
{
    let ghost recs = page.delegation_responses@;
    let ghost m0 = ledger@;
    proof {
        assert(recs.skip(0) =~= recs);
    }
    let n = page.delegation_responses.len();
    let mut i: usize = 0;
    while i < n
        invariant
            i <= n,
            n == recs.len(),
            recs == page.delegation_responses@,
            m0 == old(ledger)@,
            ledger.wf(),
            apply_records(m0, recs) == apply_records(ledger@, recs.skip(i as int)),
        decreases n - i,
    {
        let record = &page.delegation_responses[i];
        let ghost pre = ledger@;
        proof {
            assert(recs.skip(i as int)[0] == recs[i as int]);
            assert(recs.skip(i as int).drop_first() =~= recs.skip(i + 1));
        }
        match apply_record(ledger, record) {
            Ok(()) => {},
            Err(e) => {
                return Err(e);
            },
        }
        i = i + 1;
    }
    proof {
        assert(recs.skip(n as int) =~= Seq::<DelegationRecord>::empty());
    }
    Ok(())
}

/// Crawl one validator's whole delegation listing: fold pages in order,
/// stopping at the first page whose continuation key is absent or empty, or
/// at the first fatal record.
pub fn aggregate_delegations(ledger: &mut Ledger, pages: &Vec<DelegationsPage>) -> (r: Result<
    (),
    SnapshotError,
>)
    requires
        old(ledger).wf(),
        exists|k: int| 0 <= k < pages@.len() && cursor_exhausted(#[trigger] pages@[k]),
    ensures
        final(ledger).wf(),
        ({
            let (m2, err) = stream_fold(old(ledger)@, pages@);
            &&& final(ledger)@ == m2
            &&& match r {
                Ok(()) => err is None,
                Err(e) => err == Some(e),
            }
        }),
{
    let ghost m0 = ledger@;
    proof {
        assert(pages@.skip(0) =~= pages@);
    }
    let n = pages.len();
    let mut i: usize = 0;
    loop
        invariant_except_break
            stream_fold(m0, pages@) == stream_fold(ledger@, pages@.skip(i as int)),
        invariant
            n == pages@.len(),
            i < n,
            m0 == old(ledger)@,
            ledger.wf(),
            exists|k: int| i <= k < pages@.len() && cursor_exhausted(#[trigger] pages@[k]),
        ensures
            ledger.wf(),
            stream_fold(m0, pages@) == (ledger@, None::<SnapshotError>),
        decreases n - i,
    {
        let page = &pages[i];
        let ghost pre = ledger@;
        proof {
            assert(pages@.skip(i as int)[0] == pages@[i as int]);
            assert(pages@.skip(i as int).drop_first() =~= pages@.skip(i + 1));
        }
        match apply_delegations_page(ledger, page) {
            Ok(()) => {},
            Err(e) => {
                return Err(e);
            },
        }
        if next_page(page).is_none() {
            break ;
        }
        proof {
            let k = choose|k: int| i <= k < pages@.len() && cursor_exhausted(#[trigger] pages@[k]);
            assert(k != i);
            assert(i + 1 <= k < pages@.len() && cursor_exhausted(pages@[k]));
        }
        i = i + 1;
    }
    Ok(())
}

} // verus!
