//! The snapshot driver: one delegation crawl per enumerated validator,
//! all folding into one shared ledger, plus the progress figure the run
//! reports after each validator.

use vstd::prelude::*;
use crate::aggregator::aggregate_delegations;
use crate::aggregator::stream_fold;
use crate::cursor::cursor_exhausted;
use crate::error::SnapshotError;
use crate::ledger::Ledger;
use crate::pages::DelegationsPage;

verus! {

/// Fold one delegation stream per validator, in validator order, stopping
/// at the first fatal record.
pub open spec fn snapshot_fold(m: Map<Seq<char>, u128>, streams: Seq<Vec<DelegationsPage>>) -> (
    Map<Seq<char>, u128>,
    Option<SnapshotError>,
)
    decreases streams.len(),
{
    if streams.len() == 0 {
        (m, None)
    } else {
        let (m2, err) = stream_fold(m, streams[0]@);
        if err is Some {
            (m2, err)
        } else {
            snapshot_fold(m2, streams.drop_first())
        }
    }
}

/// Build the snapshot ledger: starting from an empty ledger, crawl each
/// validator's delegation stream in order. An empty validator set yields an
/// empty ledger, not an error; the first fatal record aborts the run.
#[verifier::loop_isolation(false)]
pub fn run_snapshot(streams: &Vec<Vec<DelegationsPage>>) -> (r: Result<Ledger, SnapshotError>)
    requires
        forall|v: int|
            0 <= v < streams@.len() ==> exists|k: int|
                0 <= k < (#[trigger] streams@[v])@.len() && cursor_exhausted(streams@[v]@[k]),
    ensures
        match r {
            Ok(l) => {
                &&& l.wf()
                &&& snapshot_fold(Map::empty(), streams@) == (l@, None::<SnapshotError>)
            },
            Err(e) => snapshot_fold(Map::empty(), streams@).1 == Some(e),
        },
{
    let mut ledger = Ledger::new();
    proof {
        assert(streams@.skip(0) =~= streams@);
    }
    let n = streams.len();
    let mut v: usize = 0;
    while v < n
        invariant
            v <= n,
            ledger.wf(),
            snapshot_fold(Map::empty(), streams@) == snapshot_fold(
                ledger@,
                streams@.skip(v as int),
            ),
        decreases n - v,
    {
        let stream = &streams[v];
        proof {
            assert(streams@.skip(v as int)[0] == streams@[v as int]);
            assert(streams@.skip(v as int).drop_first() =~= streams@.skip(v + 1));
        }
        match aggregate_delegations(&mut ledger, stream) {
            Ok(()) => {},
            Err(e) => {
                return Err(e);
            },
        }
        v = v + 1;
    }
    proof {
        assert(streams@.skip(n as int) =~= Seq::<Vec<DelegationsPage>>::empty());
    }
    Ok(ledger)
}

/// The progress percentage reported after finishing validator `processed`
/// of `total`, guarded so that a single-validator or empty set divides by
/// nothing.
pub fn percent_progress(processed: usize, total: usize) -> (r: u64)
    requires
        processed <= total,
    ensures
        total <= 1 ==> r == 100,
        total > 1 ==> r == (processed * 100) / ((total - 1) as int),
{
    if total <= 1 {
        100
    } else {
        let wide: u128 = (processed as u128) * 100 / ((total - 1) as u128);
        proof {
            let p = processed as int;
            let t = total as int;
            assert((p * 100) / (t - 1) <= 200) by (nonlinear_arith)
                requires
                    p <= t,
                    t > 1,
            ;
            assert(wide as int == (p * 100) / (t - 1));
        }
        wide as u64
    }
}

} // verus!
