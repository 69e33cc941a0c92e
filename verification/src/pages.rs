//! The page shapes the remote query endpoint returns, as plain values.
//!
//! A crawl sees a validator listing page by page, and a delegation listing
//! page by page per validator; each page carries an optional continuation
//! key for the cursor logic.

use vstd::prelude::*;
use crate::cursor::PaginatedResponse;

verus! {

/// One validator as the listing reports it: its operator address and
/// whether the protocol has jailed it.
pub struct ValidatorInfo {
    pub operator_address: String,
    pub jailed: bool,
}

/// One page of the validator listing.
pub struct ValidatorsPage {
    pub validators: Vec<ValidatorInfo>,
    pub next_key: Option<Vec<u8>>,
}

/// One delegation record: the delegator and its stake, as a decimal string.
/// An absent balance is a broken data contract, not a zero.
pub struct DelegationRecord {
    pub delegator_address: String,
    pub balance: Option<String>,
}

/// One page of the delegation listing for a single validator.
pub struct DelegationsPage {
    pub delegation_responses: Vec<DelegationRecord>,
    pub next_key: Option<Vec<u8>>,
}

impl PaginatedResponse for ValidatorsPage {
    open spec fn spec_next_key(&self) -> Option<Seq<u8>> {
        match self.next_key {
            Some(k) => Some(k@),
            None => None,
        }
    }

    fn next_key(&self) -> (r: Option<Vec<u8>>) {
        match &self.next_key {
            Some(k) => {
                let mut copy: Vec<u8> = Vec::new();
                let mut i: usize = 0;
                while i < k.len()
                    invariant
                        i <= k@.len(),
                        copy@ == k@.take(i as int),
                    decreases k@.len() - i,
                {
                    copy.push(k[i]);
                    proof {
                        assert(k@.take(i + 1) =~= k@.take(i as int).push(k@[i as int]));
                    }
                    i = i + 1;
                }
                proof {
                    assert(k@.take(k@.len() as int) =~= k@);
                }
                Some(copy)
            },
            None => None,
        }
    }
}

impl PaginatedResponse for DelegationsPage {
    open spec fn spec_next_key(&self) -> Option<Seq<u8>> {
        match self.next_key {
            Some(k) => Some(k@),
            None => None,
        }
    }

    fn next_key(&self) -> (r: Option<Vec<u8>>) {
        match &self.next_key {
            Some(k) => {
                let mut copy: Vec<u8> = Vec::new();
                let mut i: usize = 0;
                while i < k.len()
                    invariant
                        i <= k@.len(),
                        copy@ == k@.take(i as int),
                    decreases k@.len() - i,
                {
                    copy.push(k[i]);
                    proof {
                        assert(k@.take(i + 1) =~= k@.take(i as int).push(k@[i as int]));
                    }
                    i = i + 1;
                }
                proof {
                    assert(k@.take(k@.len() as int) =~= k@);
                }
                Some(copy)
            },
            None => None,
        }
    }
}

} // verus!
