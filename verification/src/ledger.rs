//! The snapshot ledger: a map from delegator identity to total stake.
//!
//! Accumulation is insert-or-add with an overflow check; export lists every
//! delegator with positive stake, ascending by identifier, so that two runs
//! over identical remote state produce identical output.

use vstd::prelude::*;
use crate::error::SnapshotError;
use crate::order::lex_lt;
use crate::order::str_lex_lt;
use crate::order::lemma_lex_lt_total;

verus! {

/// One exported line: a delegator and its total stake.
pub struct LedgerEntry {
    pub delegator: String,
    pub amount: u128,
}

/// The accumulating map from delegator identity to total stake.
pub struct Ledger {
    entries: Vec<LedgerEntry>,
}

/// No two entries name the same delegator.
pub open spec fn unique_keys(s: Seq<LedgerEntry>) -> bool {
    forall|i: int, j: int| 0 <= i < j < s.len() ==> s[i].delegator@ != s[j].delegator@
}

/// The mapping a sequence of entries stands for.
pub open spec fn entries_map(s: Seq<LedgerEntry>) -> Map<Seq<char>, u128>
    decreases s.len(),
{
    if s.len() == 0 {
        Map::empty()
    } else {
        entries_map(s.drop_last()).insert(s.last().delegator@, s.last().amount)
    }
}

/// The stake recorded for `k`, taking an absent key as zero.
pub open spec fn total_of(m: Map<Seq<char>, u128>, k: Seq<char>) -> int {
    if m.contains_key(k) {
        m[k] as int
    } else {
        0
    }
}

proof fn lemma_entries_map_dom(s: Seq<LedgerEntry>)
    ensures
        forall|k: Seq<char>|
            #[trigger] entries_map(s).contains_key(k) <==> (exists|i: int|
                0 <= i < s.len() && s[i].delegator@ == k),
    decreases s.len(),
{
    if s.len() > 0 {
        lemma_entries_map_dom(s.drop_last());
        assert forall|k: Seq<char>| #[trigger] entries_map(s).contains_key(k) implies (exists|i: int|
            0 <= i < s.len() && s[i].delegator@ == k) by {
            if k == s.last().delegator@ {
                assert(s[s.len() - 1].delegator@ == k);
            } else {
                assert(entries_map(s.drop_last()).contains_key(k));
                let i = choose|i: int| 0 <= i < s.drop_last().len() && s.drop_last()[i].delegator@
                    == k;
                assert(s[i] == s.drop_last()[i]);
                assert(s[i].delegator@ == k);
            }
        }
        assert forall|k: Seq<char>| (exists|i: int| 0 <= i < s.len() && s[i].delegator@ == k)
            implies #[trigger] entries_map(s).contains_key(k) by {
            let i = choose|i: int| 0 <= i < s.len() && s[i].delegator@ == k;
            if i < s.len() - 1 {
                assert(s.drop_last()[i].delegator@ == k);
                assert(entries_map(s.drop_last()).contains_key(k));
            } else {
                assert(k == s.last().delegator@);
            }
        }
    }
}

proof fn lemma_entries_map_index(s: Seq<LedgerEntry>)
    requires
        unique_keys(s),
    ensures
        forall|i: int|
            0 <= i < s.len() ==> {
                &&& entries_map(s).contains_key(#[trigger] s[i].delegator@)
                &&& entries_map(s)[s[i].delegator@] == s[i].amount
            },
    decreases s.len(),
{
    lemma_entries_map_dom(s);
    if s.len() > 0 {
        lemma_entries_map_index(s.drop_last());
        assert forall|i: int| 0 <= i < s.len() implies {
            &&& entries_map(s).contains_key(#[trigger] s[i].delegator@)
            &&& entries_map(s)[s[i].delegator@] == s[i].amount
        } by {
            if i < s.len() - 1 {
                assert(s.drop_last()[i] == s[i]);
                assert(s[i].delegator@ != s.last().delegator@);
            }
        }
    }
}

proof fn lemma_entries_map_finite(s: Seq<LedgerEntry>)
    ensures
        entries_map(s).dom().finite(),
        unique_keys(s) ==> entries_map(s).dom().len() == s.len(),
    decreases s.len(),
{
    if s.len() > 0 {
        lemma_entries_map_finite(s.drop_last());
        lemma_entries_map_dom(s.drop_last());
        if unique_keys(s) {
            assert(forall|i: int, j: int|
                0 <= i < j < s.drop_last().len() ==> s.drop_last()[i].delegator@
                    != s.drop_last()[j].delegator@);
            assert(!entries_map(s.drop_last()).contains_key(s.last().delegator@)) by {
                if entries_map(s.drop_last()).contains_key(s.last().delegator@) {
                    let i = choose|i: int|
                        0 <= i < s.drop_last().len() && s.drop_last()[i].delegator@
                            == s.last().delegator@;
                    assert(s[i].delegator@ == s[s.len() - 1].delegator@);
                }
            }
        }
    }
}

proof fn lemma_entries_map_update(s: Seq<LedgerEntry>, i: int, e: LedgerEntry)
    requires
        unique_keys(s),
        0 <= i < s.len(),
        e.delegator@ == s[i].delegator@,
    ensures
        entries_map(s.update(i, e)) =~= entries_map(s).insert(e.delegator@, e.amount),
        unique_keys(s.update(i, e)),
    decreases s.len(),
{
    let t = s.update(i, e);
    assert(forall|j: int| 0 <= j < s.len() ==> #[trigger] t[j].delegator@ == s[j].delegator@);
    if i == s.len() - 1 {
        assert(t.drop_last() =~= s.drop_last());
        assert(t.last() == e);
    } else {
        assert(t.drop_last() =~= s.drop_last().update(i, e));
        assert(t.last() == s.last());
        lemma_entries_map_update(s.drop_last(), i, e);
        assert(e.delegator@ != s.last().delegator@) by {
            assert(s[i].delegator@ != s[s.len() - 1].delegator@);
        }
        assert(entries_map(t) =~= entries_map(s).insert(e.delegator@, e.amount));
    }
}

proof fn lemma_entries_map_push(s: Seq<LedgerEntry>, e: LedgerEntry)
    ensures
        entries_map(s.push(e)) =~= entries_map(s).insert(e.delegator@, e.amount),
{
    assert(s.push(e).drop_last() =~= s);
    assert(s.push(e).last() == e);
}

/// Entries come strictly ascending by delegator identifier.
pub open spec fn sorted_strict(s: Seq<LedgerEntry>) -> bool {
    forall|i: int, j: int| 0 <= i < j < s.len() ==> lex_lt(s[i].delegator@, s[j].delegator@)
}

fn insert_pos(out: &Vec<LedgerEntry>, key: &String) -> (pos: usize)
    ensures
        pos <= out@.len(),
        forall|q: int| 0 <= q < pos ==> !lex_lt(key@, out@[q].delegator@),
        pos < out@.len() ==> lex_lt(key@, out@[pos as int].delegator@),
{
    let n = out.len();
    let mut p: usize = 0;
    while p < n
        invariant
            p <= n,
            n == out@.len(),
            forall|q: int| 0 <= q < p ==> !lex_lt(key@, out@[q].delegator@),
        ensures
            p <= n,
            forall|q: int| 0 <= q < p ==> !lex_lt(key@, out@[q].delegator@),
            p < n ==> lex_lt(key@, out@[p as int].delegator@),
        decreases n - p,
    {
        if str_lex_lt(key.as_str(), out[p].delegator.as_str()) {
            break ;
        }
        p = p + 1;
    }
    p
}

proof fn lemma_sorted_insert(s: Seq<LedgerEntry>, pos: int, entry: LedgerEntry)
    requires
        sorted_strict(s),
        0 <= pos <= s.len(),
        forall|q: int| 0 <= q < pos ==> lex_lt((#[trigger] s[q]).delegator@, entry.delegator@),
        pos < s.len() ==> lex_lt(entry.delegator@, s[pos].delegator@),
    ensures
        sorted_strict(s.insert(pos, entry)),
{
    s.insert_ensures(pos, entry);
    let t = s.insert(pos, entry);
    assert forall|i: int, j: int| 0 <= i < j < t.len() implies lex_lt(
        t[i].delegator@,
        t[j].delegator@,
    ) by {
        if j < pos {
        } else if i > pos {
            assert(t[i] == s[i - 1] && t[j] == s[j - 1]);
        } else if i == pos {
            assert(t[j] == s[j - 1]);
            if j - 1 > pos {
                crate::order::lemma_lex_lt_transitive(
                    entry.delegator@,
                    s[pos].delegator@,
                    s[j - 1].delegator@,
                );
            }
        } else if j == pos {
            assert(t[i] == s[i]);
        } else {
            assert(t[i] == s[i] && t[j] == s[j - 1]);
            assert(i < j - 1);
        }
    }
}

fn insert_unique_sorted(out: &mut Vec<LedgerEntry>, entry: LedgerEntry)
    requires
        sorted_strict(old(out)@),
        forall|q: int|
            0 <= q < old(out)@.len() ==> (#[trigger] old(out)@[q]).delegator@ != entry.delegator@,
    ensures
        sorted_strict(final(out)@),
        exists|pos: int|
            0 <= pos <= old(out)@.len() && final(out)@ == old(out)@.insert(pos, entry),
{
    let pos = insert_pos(out, &entry.delegator);
    proof {
        assert forall|q: int| 0 <= q < pos implies lex_lt(
            (#[trigger] out@[q]).delegator@,
            entry.delegator@,
        ) by {
            lemma_lex_lt_total(out@[q].delegator@, entry.delegator@);
        }
        lemma_sorted_insert(out@, pos as int, entry);
    }
    let ghost before = out@;
    out.insert(pos, entry);
    proof {
        assert(0 <= pos <= before.len() && out@ == before.insert(pos as int, entry));
    }
}

/// `e` repeats the identifier and amount of a source entry among the first
/// `i`, and that amount is positive.
spec fn entry_from(e: LedgerEntry, s: Seq<LedgerEntry>, i: int) -> bool {
    exists|j: int| #![trigger s[j]]
        0 <= j < i && e.delegator@ == s[j].delegator@ && e.amount == s[j].amount && s[j].amount > 0
}

/// Some entry of `out` repeats the identifier and amount of `s[j]`.
spec fn covered_at(out: Seq<LedgerEntry>, s: Seq<LedgerEntry>, j: int) -> bool {
    exists|p: int| #![trigger out[p]]
        0 <= p < out.len() && out[p].delegator@ == s[j].delegator@ && out[p].amount == s[j].amount
}

/// Every exported entry stems from one of the first `i` source entries.
#[verifier::opaque]
spec fn from_prefix(out: Seq<LedgerEntry>, s: Seq<LedgerEntry>, i: int) -> bool {
    forall|p: int| #![trigger out[p]] 0 <= p < out.len() ==> entry_from(out[p], s, i)
}

/// Every positive source entry among the first `i` shows up in `out`.
#[verifier::opaque]
spec fn covers_prefix(out: Seq<LedgerEntry>, s: Seq<LedgerEntry>, i: int) -> bool {
    forall|j: int| #![trigger s[j]] 0 <= j < i && s[j].amount > 0 ==> covered_at(out, s, j)
}

proof fn lemma_prefix_skip(out: Seq<LedgerEntry>, s: Seq<LedgerEntry>, i: int)
    requires
        from_prefix(out, s, i),
        covers_prefix(out, s, i),
        0 <= i < s.len(),
        s[i].amount == 0,
    ensures
        from_prefix(out, s, i + 1),
        covers_prefix(out, s, i + 1),
{
    assert(from_prefix(out, s, i + 1)) by {
        reveal(from_prefix);
        assert forall|p: int| #![trigger out[p]] 0 <= p < out.len() implies entry_from(
            out[p],
            s,
            i + 1,
        ) by {
            let j = choose|j: int| #![trigger s[j]]
                0 <= j < i && out[p].delegator@ == s[j].delegator@ && out[p].amount == s[j].amount
                    && s[j].amount > 0;
            assert(0 <= j < i + 1 && out[p].delegator@ == s[j].delegator@ && out[p].amount
                == s[j].amount && s[j].amount > 0);
        }
    }
    assert(covers_prefix(out, s, i + 1)) by {
        reveal(covers_prefix);
        assert forall|j: int| #![trigger s[j]] 0 <= j < i + 1 && s[j].amount > 0 implies covered_at(
            out,
            s,
            j,
        ) by {
            assert(j < i);
        }
    }
}

proof fn lemma_no_key_clash(out: Seq<LedgerEntry>, s: Seq<LedgerEntry>, i: int)
    requires
        from_prefix(out, s, i),
        unique_keys(s),
        0 <= i < s.len(),
    ensures
        forall|q: int| 0 <= q < out.len() ==> (#[trigger] out[q]).delegator@ != s[i].delegator@,
{
    reveal(from_prefix);
    assert forall|q: int| 0 <= q < out.len() implies (#[trigger] out[q]).delegator@
        != s[i].delegator@ by {
        assert(entry_from(out[q], s, i));
        let j = choose|j: int| #![trigger s[j]]
            0 <= j < i && out[q].delegator@ == s[j].delegator@ && out[q].amount == s[j].amount
                && s[j].amount > 0;
        assert(s[j].delegator@ != s[i].delegator@);
    }
}

proof fn lemma_prefix_insert(
    old_out: Seq<LedgerEntry>,
    new_out: Seq<LedgerEntry>,
    s: Seq<LedgerEntry>,
    i: int,
    pos: int,
    entry: LedgerEntry,
)
    requires
        0 <= pos <= old_out.len(),
        new_out == old_out.insert(pos, entry),
        from_prefix(old_out, s, i),
        covers_prefix(old_out, s, i),
        0 <= i < s.len(),
        entry.delegator@ == s[i].delegator@,
        entry.amount == s[i].amount,
        s[i].amount > 0,
    ensures
        from_prefix(new_out, s, i + 1),
        covers_prefix(new_out, s, i + 1),
{
    old_out.insert_ensures(pos, entry);
    assert(from_prefix(new_out, s, i + 1)) by {
        reveal(from_prefix);
        assert forall|p: int| #![trigger new_out[p]] 0 <= p < new_out.len() implies entry_from(
            new_out[p],
            s,
            i + 1,
        ) by {
            if p == pos {
                assert(new_out[p] == entry);
                assert(0 <= i < i + 1 && new_out[p].delegator@ == s[i].delegator@
                    && new_out[p].amount == s[i].amount && s[i].amount > 0);
            } else {
                let q = if p < pos {
                    p
                } else {
                    p - 1
                };
                assert(new_out[p] == old_out[q]);
                assert(entry_from(old_out[q], s, i));
                let j = choose|j: int| #![trigger s[j]]
                    0 <= j < i && old_out[q].delegator@ == s[j].delegator@ && old_out[q].amount
                        == s[j].amount && s[j].amount > 0;
                assert(0 <= j < i + 1 && new_out[p].delegator@ == s[j].delegator@
                    && new_out[p].amount == s[j].amount && s[j].amount > 0);
            }
        }
    }
    assert(covers_prefix(new_out, s, i + 1)) by {
        reveal(covers_prefix);
        assert forall|j: int| #![trigger s[j]] 0 <= j < i + 1 && s[j].amount > 0
            implies covered_at(new_out, s, j) by {
            if j == i {
                assert(new_out[pos] == entry);
                assert(0 <= pos < new_out.len() && new_out[pos].delegator@ == s[j].delegator@
                    && new_out[pos].amount == s[j].amount);
            } else {
                assert(covered_at(old_out, s, j));
                let p0 = choose|p0: int| #![trigger old_out[p0]]
                    0 <= p0 < old_out.len() && old_out[p0].delegator@ == s[j].delegator@
                        && old_out[p0].amount == s[j].amount;
                let p1 = if p0 < pos {
                    p0
                } else {
                    p0 + 1
                };
                assert(new_out[p1] == old_out[p0]);
                assert(0 <= p1 < new_out.len() && new_out[p1].delegator@ == s[j].delegator@
                    && new_out[p1].amount == s[j].amount);
            }
        }
    }
}

proof fn lemma_export_post(out: Seq<LedgerEntry>, s: Seq<LedgerEntry>)
    requires
        from_prefix(out, s, s.len() as int),
        covers_prefix(out, s, s.len() as int),
        unique_keys(s),
    ensures
        forall|p: int| #![trigger out[p]]
            0 <= p < out.len() ==> {
                &&& out[p].amount > 0
                &&& entries_map(s).contains_key(out[p].delegator@)
                &&& entries_map(s)[out[p].delegator@] == out[p].amount
            },
        forall|k: Seq<char>|
            entries_map(s).contains_key(k) && entries_map(s)[k] > 0 ==> exists|p: int|
                #![trigger out[p]]
                0 <= p < out.len() && out[p].delegator@ == k,
{
    reveal(from_prefix);
    reveal(covers_prefix);
    lemma_entries_map_dom(s);
    lemma_entries_map_index(s);
    assert forall|p: int| #![trigger out[p]] 0 <= p < out.len() implies {
        &&& out[p].amount > 0
        &&& entries_map(s).contains_key(out[p].delegator@)
        &&& entries_map(s)[out[p].delegator@] == out[p].amount
    } by {
        assert(entry_from(out[p], s, s.len() as int));
        let j = choose|j: int| #![trigger s[j]]
            0 <= j < s.len() && out[p].delegator@ == s[j].delegator@ && out[p].amount
                == s[j].amount && s[j].amount > 0;
        assert(entries_map(s)[s[j].delegator@] == s[j].amount);
    }
    assert forall|k: Seq<char>| entries_map(s).contains_key(k) && entries_map(s)[k] > 0
        implies exists|p: int| #![trigger out[p]] 0 <= p < out.len() && out[p].delegator@
        == k by {
        let j = choose|j: int| 0 <= j < s.len() && s[j].delegator@ == k;
        assert(entries_map(s)[s[j].delegator@] == s[j].amount);
        assert(s[j].amount > 0);
        assert(covered_at(out, s, j));
        let p = choose|p: int| #![trigger out[p]]
            0 <= p < out.len() && out[p].delegator@ == s[j].delegator@ && out[p].amount
                == s[j].amount;
        assert(0 <= p < out.len() && out[p].delegator@ == k);
    }
}

/// One accumulation step as `Ledger::add` performs it: the delegator's new
/// total is its old total (zero if absent) plus the amount.
pub open spec fn spec_add(m: Map<Seq<char>, u128>, d: Seq<char>, a: u128) -> Map<Seq<char>, u128> {
    m.insert(d, (total_of(m, d) + a) as u128)
}

/// Accumulating two delegation records yields the same ledger in either
/// order, whenever both orders stay in range.
pub proof fn lemma_add_commutes(
    m: Map<Seq<char>, u128>,
    d1: Seq<char>,
    a1: u128,
    d2: Seq<char>,
    a2: u128,
)
    requires
        total_of(m, d1) + a1 <= u128::MAX,
        total_of(m, d2) + a2 <= u128::MAX,
        d1 == d2 ==> total_of(m, d1) + a1 + a2 <= u128::MAX,
    ensures
        spec_add(spec_add(m, d1, a1), d2, a2) == spec_add(spec_add(m, d2, a2), d1, a1),
{
    if d1 == d2 {
        assert(spec_add(spec_add(m, d1, a1), d2, a2) =~= spec_add(spec_add(m, d2, a2), d1, a1));
    } else {
        assert(total_of(spec_add(m, d1, a1), d2) == total_of(m, d2));
        assert(total_of(spec_add(m, d2, a2), d1) == total_of(m, d1));
        assert(spec_add(spec_add(m, d1, a1), d2, a2) =~= spec_add(spec_add(m, d2, a2), d1, a1));
    }
}

/// One accumulation step over unbounded totals, for stating order
/// independence without range conditions.
pub open spec fn accumulate(m: Map<Seq<char>, int>, d: Seq<char>, a: int) -> Map<Seq<char>, int> {
    m.insert(d, if m.contains_key(d) { m[d] + a } else { a })
}

/// Fold a whole sequence of delegation records, last record outermost.
pub open spec fn accumulate_all(m: Map<Seq<char>, int>, recs: Seq<(Seq<char>, int)>) -> Map<
    Seq<char>,
    int,
> {
    recs.fold_right(|rec: (Seq<char>, int), acc: Map<Seq<char>, int>| accumulate(acc, rec.0, rec.1), m)
}

/// Two single accumulation steps commute.
pub proof fn lemma_accumulate_commutes(
    m: Map<Seq<char>, int>,
    d1: Seq<char>,
    a1: int,
    d2: Seq<char>,
    a2: int,
)
    ensures
        accumulate(accumulate(m, d1, a1), d2, a2) == accumulate(accumulate(m, d2, a2), d1, a1),
{
    if d1 == d2 {
        assert(accumulate(accumulate(m, d1, a1), d2, a2) =~= accumulate(
            accumulate(m, d2, a2),
            d1,
            a1,
        ));
    } else {
        assert(accumulate(accumulate(m, d1, a1), d2, a2) =~= accumulate(
            accumulate(m, d2, a2),
            d1,
            a1,
        ));
    }
}

/// The final ledger is the same whatever the order in which delegation
/// records arrive: folding any two rearrangements of one collection of
/// records from the same starting map yields equal maps.
pub proof fn lemma_accumulation_order_irrelevant(
    m: Map<Seq<char>, int>,
    recs1: Seq<(Seq<char>, int)>,
    recs2: Seq<(Seq<char>, int)>,
)
    requires
        recs1.to_multiset() == recs2.to_multiset(),
    ensures
        accumulate_all(m, recs1) == accumulate_all(m, recs2),
{
    let f = |rec: (Seq<char>, int), acc: Map<Seq<char>, int>| accumulate(acc, rec.0, rec.1);
    assert forall|x: (Seq<char>, int), y: (Seq<char>, int), v: Map<Seq<char>, int>| #[trigger] f(
        x,
        f(y, v),
    ) == f(y, f(x, v)) by {
        lemma_accumulate_commutes(v, y.0, y.1, x.0, x.1);
    }
    assert(vstd::seq_lib::commutative_foldr(f));
    vstd::seq_lib::lemma_fold_right_permutation(recs1, recs2, f, m);
}

impl View for Ledger {
    type V = Map<Seq<char>, u128>;

    closed spec fn view(&self) -> Map<Seq<char>, u128> {
        entries_map(self.entries@)
    }
}

impl Ledger {
    /// The ledger's internal invariant: one entry per delegator.
    pub closed spec fn wf(&self) -> bool {
        unique_keys(self.entries@)
    }

    /// An empty ledger.
    pub fn new() -> (r: Ledger)
        ensures
            r.wf(),
            r@ == Map::<Seq<char>, u128>::empty(),
    {
        Ledger { entries: Vec::new() }
    }

    fn find(&self, delegator: &String) -> (r: Option<usize>)
        ensures
            match r {
                Some(i) => i < self.entries@.len() && self.entries@[i as int].delegator@
                    == delegator@,
                None => forall|i: int|
                    0 <= i < self.entries@.len() ==> self.entries@[i].delegator@ != delegator@,
            },
    {
        let n = self.entries.len();
        let mut i: usize = 0;
        while i < n
            invariant
                i <= n,
                n == self.entries@.len(),
                forall|j: int| 0 <= j < i ==> self.entries@[j].delegator@ != delegator@,
            decreases n - i,
        {
            if self.entries[i].delegator == *delegator {
                return Some(i);
            }
            i = i + 1;
        }
        None
    }

    /// Whether this ledger records the given delegator, and with how much.
    pub fn lookup(&self, delegator: &String) -> (r: Option<u128>)
        requires
            self.wf(),
        ensures
            match r {
                Some(a) => self@.contains_key(delegator@) && self@[delegator@] == a,
                None => !self@.contains_key(delegator@),
            },
    {
        proof {
            lemma_entries_map_dom(self.entries@);
            lemma_entries_map_index(self.entries@);
        }
        match self.find(delegator) {
            Some(i) => Some(self.entries[i].amount),
            None => None,
        }
    }

    /// Fold one delegation's stake into the ledger: the delegator's new
    /// total is its old total (zero if absent) plus `amount`. A sum beyond
    /// the representable range is fatal and leaves the ledger unchanged.
    pub fn add(&mut self, delegator: String, amount: u128) -> (r: Result<(), SnapshotError>)
        requires
            old(self).wf(),
        ensures
            final(self).wf(),
            match r {
                Ok(()) => {
                    &&& total_of(old(self)@, delegator@) + amount <= u128::MAX
                    &&& final(self)@ == spec_add(old(self)@, delegator@, amount)
                },
                Err(e) => {
                    &&& e == SnapshotError::Overflow
                    &&& total_of(old(self)@, delegator@) + amount > u128::MAX
                    &&& final(self)@ == old(self)@
                },
            },
    {
        proof {
            lemma_entries_map_dom(self.entries@);
            lemma_entries_map_index(self.entries@);
        }
        match self.find(&delegator) {
            Some(i) => {
                let current = self.entries[i].amount;
                if amount > u128::MAX - current {
                    Err(SnapshotError::Overflow)
                } else {
                    let updated = LedgerEntry { delegator, amount: current + amount };
                    proof {
                        lemma_entries_map_update(self.entries@, i as int, updated);
                    }
                    self.entries.set(i, updated);
                    Ok(())
                }
            },
            None => {
                let entry = LedgerEntry { delegator, amount };
                proof {
                    lemma_entries_map_push(self.entries@, entry);
                }
                self.entries.push(entry);
                Ok(())
            },
        }
    }

    /// Export every delegator with positive stake, ascending by identifier.
    /// Delegators whose accumulated total is exactly zero are left out.
    pub fn export(&self) -> (r: Vec<LedgerEntry>)
        requires
            self.wf(),
        ensures
            sorted_strict(r@),
            forall|p: int| #![trigger r@[p]]
                0 <= p < r@.len() ==> {
                    &&& r@[p].amount > 0
                    &&& self@.contains_key(r@[p].delegator@)
                    &&& self@[r@[p].delegator@] == r@[p].amount
                },
            forall|k: Seq<char>|
                self@.contains_key(k) && self@[k] > 0 ==> exists|p: int|
                    #![trigger r@[p]]
                    0 <= p < r@.len() && r@[p].delegator@ == k,
    {
        let ghost s = self.entries@;
        let n = self.entries.len();
        let mut out: Vec<LedgerEntry> = Vec::new();
        proof {
            assert(from_prefix(out@, s, 0)) by {
                reveal(from_prefix);
            }
            assert(covers_prefix(out@, s, 0)) by {
                reveal(covers_prefix);
            }
        }
        let mut i: usize = 0;
        while i < n
            invariant
                i <= n,
                n == s.len(),
                s == self.entries@,
                unique_keys(s),
                sorted_strict(out@),
                from_prefix(out@, s, i as int),
                covers_prefix(out@, s, i as int),
            decreases n - i,
        {
            let amount = self.entries[i].amount;
            if amount > 0 {
                let key = self.entries[i].delegator.clone();
                let entry = LedgerEntry { delegator: key, amount };
                let ghost old_out = out@;
                proof {
                    lemma_no_key_clash(old_out, s, i as int);
                }
                insert_unique_sorted(&mut out, entry);
                proof {
                    let pos = choose|pos: int|
                        0 <= pos <= old_out.len() && out@ == old_out.insert(pos, entry);
                    lemma_prefix_insert(old_out, out@, s, i as int, pos, entry);
                }
            } else {
                proof {
                    lemma_prefix_skip(out@, s, i as int);
                }
            }
            i = i + 1;
        }
        proof {
            lemma_export_post(out@, s);
            assert(self@ == entries_map(s));
        }
        out
    }

    /// How many distinct delegators the ledger records.
    pub fn delegator_count(&self) -> (r: usize)
        requires
            self.wf(),
        ensures
            r == self@.dom().len(),
    {
        proof {
            lemma_entries_map_finite(self.entries@);
        }
        self.entries.len()
    }
}

} // verus!
