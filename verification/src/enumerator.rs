//! The validator enumerator: one paginated crawl over the validator
//! listing, keeping the operator address of every validator that is not
//! jailed, in response order.

use vstd::prelude::*;
use crate::cursor::cursor_exhausted;
use crate::cursor::next_page;
use crate::pages::ValidatorInfo;
use crate::pages::ValidatorsPage;

verus! {

/// The operator addresses of the validators that are not jailed, in order.
pub open spec fn eligible_ids(vs: Seq<ValidatorInfo>) -> Seq<Seq<char>>
    decreases vs.len(),
{
    if vs.len() == 0 {
        Seq::empty()
    } else if vs.last().jailed {
        eligible_ids(vs.drop_last())
    } else {
        eligible_ids(vs.drop_last()).push(vs.last().operator_address@)
    }
}

/// The eligible identifiers of a run of pages, page after page.
pub open spec fn eligible_of_pages(ps: Seq<ValidatorsPage>) -> Seq<Seq<char>>
    decreases ps.len(),
{
    if ps.len() == 0 {
        Seq::empty()
    } else {
        eligible_of_pages(ps.drop_last()) + eligible_ids(ps.last().validators@)
    }
}

/// Append the eligible validators of one page to the accumulating
/// identifier list, keeping response order and dropping jailed validators.
pub fn filter_validators_page(page: &ValidatorsPage, acc: &mut Vec<String>)
    ensures
        final(acc).deep_view() == old(acc).deep_view() + eligible_ids(page.validators@),
{
    let n = page.validators.len();
    let mut i: usize = 0;
    while i < n
        invariant
            i <= n,
            n == page.validators@.len(),
            acc.deep_view() == old(acc).deep_view() + eligible_ids(page.validators@.take(i as int)),
        decreases n - i,
    {
        let v = &page.validators[i];
        proof {
            assert(page.validators@.take(i + 1).drop_last() =~= page.validators@.take(i as int));
            assert(page.validators@.take(i + 1).last() == page.validators@[i as int]);
        }
        if !v.jailed {
            let id = v.operator_address.clone();
            let ghost before = acc.deep_view();
            acc.push(id);
            proof {
                assert(acc.deep_view() =~= before.push(id@));
                assert(acc.deep_view() =~= old(acc).deep_view() + eligible_ids(
                    page.validators@.take(i + 1),
                ));
            }
        } else {
            proof {
                assert(eligible_ids(page.validators@.take(i + 1)) == eligible_ids(
                    page.validators@.take(i as int),
                ));
            }
        }
        i = i + 1;
    }
    proof {
        assert(page.validators@.take(n as int) =~= page.validators@);
    }
}

/// Crawl the whole validator listing: process pages in order, stopping at
/// the first page whose continuation key is absent or empty, and return the
/// eligible identifiers of exactly the pages up to and including it.
pub fn enumerate_validators(pages: &Vec<ValidatorsPage>) -> (r: Vec<String>)
    requires
        exists|k: int| 0 <= k < pages@.len() && cursor_exhausted(#[trigger] pages@[k]),
    ensures
        exists|k: int|
            {
                &&& 0 <= k < pages@.len()
                &&& cursor_exhausted(#[trigger] pages@[k])
                &&& forall|j: int| 0 <= j < k ==> !cursor_exhausted(#[trigger] pages@[j])
                &&& r.deep_view() == eligible_of_pages(pages@.take(k + 1))
            },
{
    let mut acc: Vec<String> = Vec::new();
    let n = pages.len();
    let mut i: usize = 0;
    proof {
        assert(acc.deep_view() =~= eligible_of_pages(pages@.take(0)));
    }
    loop
        invariant_except_break
            acc.deep_view() == eligible_of_pages(pages@.take(i as int)),
        invariant
            n == pages@.len(),
            i < n,
            exists|k: int| i <= k < pages@.len() && cursor_exhausted(#[trigger] pages@[k]),
            forall|j: int| 0 <= j < i ==> !cursor_exhausted(#[trigger] pages@[j]),
        ensures
            i < pages@.len(),
            cursor_exhausted(pages@[i as int]),
            forall|j: int| 0 <= j < i ==> !cursor_exhausted(#[trigger] pages@[j]),
            acc.deep_view() == eligible_of_pages(pages@.take(i + 1)),
        decreases pages@.len() - i,
    {
        let page = &pages[i];
        filter_validators_page(page, &mut acc);
        proof {
            assert(pages@.take(i + 1).drop_last() =~= pages@.take(i as int));
            assert(pages@.take(i + 1).last() == pages@[i as int]);
            assert(acc.deep_view() == eligible_of_pages(pages@.take(i + 1)));
        }
        if next_page(page).is_none() {
            break ;
        }
        proof {
            let k = choose|k: int| i <= k < pages@.len() && cursor_exhausted(#[trigger] pages@[k]);
            assert(k != i);
            assert(i + 1 <= k < pages@.len() && cursor_exhausted(pages@[k]));
        }
        i = i + 1;
    }
    proof {
        assert(0 <= i < pages@.len() && cursor_exhausted(pages@[i as int]) && (forall|j: int|
            0 <= j < i ==> !cursor_exhausted(#[trigger] pages@[j])) && acc.deep_view()
            == eligible_of_pages(pages@.take(i + 1)));
    }
    acc
}

} // verus!
