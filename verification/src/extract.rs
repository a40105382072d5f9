//! Approval extraction: reducing a transaction history to the
//! deduplicated relationship set contract → spenders.
//!
//! A transaction contributes a relationship iff the owner sent it, it did
//! not fail, and its call data starts with the `approve` selector. The
//! spender is decoded from argument word 0; the pair (contract, spender)
//! is inserted under the contract's canonical lowercase key, so that
//! re-approving the same spender, with whatever amount, collapses to one
//! relationship. An included transaction whose call data cannot be
//! decoded is fatal to the whole extraction, as entry validation is.

use vstd::prelude::*;

use crate::ascii::ascii_lowercase;
use crate::ascii::bytes_eq;
use crate::ascii::lower_bytes;
use crate::calldata::argument_count;
use crate::calldata::argument_word;
use crate::calldata::call_data_well_formed;
use crate::calldata::has_approve_selector;
use crate::calldata::input_has_approve_selector;
use crate::calldata::parse_256_method_arguments;
use crate::calldata::spender_from_word;
use crate::calldata::spender_of_word;
use crate::errors::Error;

verus! {

/// One historical transaction, as the explorer reports it: addresses and
/// call data are hexadecimal byte strings.
#[derive(Debug)]
pub struct Transaction {
    pub from: Vec<u8>,
    pub to: Vec<u8>,
    pub is_error: bool,
    pub input: Vec<u8>,
}

/// The inclusion predicate: the owner sent the transaction, it did not
/// fail, and it calls `approve`.
pub open spec fn tx_included(tx: Transaction, owner: Seq<u8>) -> bool {
    &&& lower_bytes(tx.from@) == lower_bytes(owner)
    &&& !tx.is_error
    &&& has_approve_selector(tx.input@)
}

/// An included transaction must decode into at least the two `approve`
/// arguments, spender and amount.
pub open spec fn tx_decodable(tx: Transaction) -> bool {
    call_data_well_formed(tx.input@) && argument_count(tx.input@) >= 2
}

/// The canonical contract key a transaction contributes to.
pub open spec fn tx_contract(tx: Transaction) -> Seq<u8> {
    lower_bytes(tx.to@)
}

/// The canonical spender a transaction names in argument word 0.
pub open spec fn tx_spender(tx: Transaction) -> Seq<u8> {
    lower_bytes(spender_of_word(argument_word(tx.input@, 0)))
}

/// The relationship set a history derives to: every (contract, spender)
/// pair named by an included, decodable transaction.
pub open spec fn approvals_of(txs: Seq<Transaction>, owner: Seq<u8>) -> Set<(Seq<u8>, Seq<u8>)> {
    Set::new(
        |p: (Seq<u8>, Seq<u8>)|
            exists|i: int|
                0 <= i < txs.len() && #[trigger] tx_included(txs[i], owner) && tx_decodable(
                    txs[i],
                ) && p == (tx_contract(txs[i]), tx_spender(txs[i])),
    )
}

/// One contract with the distinct spenders it was approved for.
#[derive(Debug)]
pub struct ApprovalEntry {
    pub contract: Vec<u8>,
    pub spenders: Vec<Vec<u8>>,
}

/// The relationship map: contract address → set of spender addresses,
/// entries in first-appearance order.
#[derive(Debug)]
pub struct Approvals {
    pub entries: Vec<ApprovalEntry>,
}

impl Approvals {
    /// The pair (`c`, `s`) stands in the map.
    pub open spec fn contains_pair(self, c: Seq<u8>, s: Seq<u8>) -> bool {
        exists|i: int, j: int|
            0 <= i < self.entries@.len() && 0 <= j < (#[trigger] self.entries@[i]).spenders@.len()
                && self.entries@[i].contract@ == c && (#[trigger] self.entries@[i].spenders@[j])@
                == s
    }

    /// The map's content, as the set of pairs it holds.
    pub open spec fn pair_set(self) -> Set<(Seq<u8>, Seq<u8>)> {
        Set::new(|p: (Seq<u8>, Seq<u8>)| self.contains_pair(p.0, p.1))
    }

    /// Deduplication, structurally: contract keys are distinct and each
    /// holds a nonempty list of distinct spenders.
    pub open spec fn wf(self) -> bool {
        &&& forall|i: int, j: int|
            0 <= i < j < self.entries@.len() ==> (#[trigger] self.entries@[i]).contract@ != (
            #[trigger] self.entries@[j]).contract@
        &&& forall|i: int|
            0 <= i < self.entries@.len() ==> (#[trigger] self.entries@[i]).spenders@.len() >= 1
        &&& forall|i: int, j1: int, j2: int|
            0 <= i < self.entries@.len() && 0 <= j1 < j2 < self.entries@[i].spenders@.len() ==> (
            #[trigger] self.entries@[i].spenders@[j1])@ != (
            #[trigger] self.entries@[i].spenders@[j2])@
    }

    /// An empty relationship map.
    pub fn new() -> (r: Approvals)
        ensures
            r.wf(),
            r.pair_set() == Set::<(Seq<u8>, Seq<u8>)>::empty(),
            r.entries@.len() == 0,
    {
        let r = Approvals { entries: Vec::new() };
        proof {
            assert(r.pair_set() =~= Set::<(Seq<u8>, Seq<u8>)>::empty());
        }
        r
    }

    fn find_contract(&self, contract: &[u8]) -> (r: Option<usize>)
        ensures
            match r {
                Some(i) => i < self.entries@.len() && self.entries@[i as int].contract@
                    == contract@,
                None => forall|i: int|
                    0 <= i < self.entries@.len() ==> (#[trigger] self.entries@[i]).contract@
                        != contract@,
            },
    {
        let mut i: usize = 0;
        while i < self.entries.len()
            invariant
                i <= self.entries@.len(),
                forall|j: int|
                    0 <= j < i ==> (#[trigger] self.entries@[j]).contract@ != contract@,
            decreases self.entries@.len() - i,
        {
            if bytes_eq(self.entries[i].contract.as_slice(), contract) {
                return Some(i);
            }
            i = i + 1;
        }
        None
    }

    /// Records that `contract` approved `spender`. Inserting a pair the
    /// map already holds leaves it unchanged.
    pub fn insert(&mut self, contract: Vec<u8>, spender: Vec<u8>)
        requires
            old(self).wf(),
        ensures
            final(self).wf(),
            final(self).pair_set() == old(self).pair_set().insert((contract@, spender@)),
    {
        match self.find_contract(contract.as_slice()) {
            Some(i) => {
                let ghost pre = *self;
                let ghost entry_old = self.entries@[i as int];
                let present = entry_contains_spender(&self.entries[i], spender.as_slice());
                if present {
                    proof {
                        let j = choose|j: int|
                            0 <= j < entry_old.spenders@.len() && (
                            #[trigger] entry_old.spenders@[j])@ == spender@;
                        assert(pre.contains_pair(contract@, spender@));
                        assert(final(self).pair_set() =~= old(self).pair_set().insert(
                            (contract@, spender@),
                        ));
                    }
                } else {
                    self.entries[i].spenders.push(spender);
                    proof {
                        let post = *self;
                        let ci = i as int;
                        let entry_new = post.entries@[ci];
                        assert(post.entries@ =~= pre.entries@.update(ci, entry_new));
                        assert(entry_new.contract@ == contract@);
                        assert(entry_new.spenders@ =~= entry_old.spenders@.push(
                            entry_new.spenders@.last(),
                        ));
                        lemma_insert_spender_pair_set(pre, post, ci, contract@, spender@);
                    }
                }
            },
            None => {
                let ghost pre = *self;
                let mut spenders: Vec<Vec<u8>> = Vec::new();
                spenders.push(spender);
                self.entries.push(ApprovalEntry { contract, spenders });
                proof {
                    let post = *self;
                    lemma_append_entry_pair_set(pre, post, contract@, spender@);
                }
            },
        }
    }
}

fn entry_contains_spender(entry: &ApprovalEntry, spender: &[u8]) -> (r: bool)
    ensures
        r == exists|j: int|
            0 <= j < entry.spenders@.len() && (#[trigger] entry.spenders@[j])@ == spender@,
{
    let mut j: usize = 0;
    while j < entry.spenders.len()
        invariant
            j <= entry.spenders@.len(),
            forall|m: int| 0 <= m < j ==> (#[trigger] entry.spenders@[m])@ != spender@,
        decreases entry.spenders@.len() - j,
    {
        if bytes_eq(entry.spenders[j].as_slice(), spender) {
            return true;
        }
        j = j + 1;
    }
    false
}

/// After pushing a new spender onto entry `ci`, the map holds exactly the
/// old pairs plus the new one, and stays well-formed.
proof fn lemma_insert_spender_pair_set(
    pre: Approvals,
    post: Approvals,
    ci: int,
    c: Seq<u8>,
    s: Seq<u8>,
)
    requires
        pre.wf(),
        0 <= ci < pre.entries@.len(),
        pre.entries@[ci].contract@ == c,
        forall|j: int|
            0 <= j < pre.entries@[ci].spenders@.len() ==> (
            #[trigger] pre.entries@[ci].spenders@[j])@ != s,
        post.entries@.len() == pre.entries@.len(),
        post.entries@[ci].contract@ == c,
        post.entries@[ci].spenders@.len() == pre.entries@[ci].spenders@.len() + 1,
        forall|j: int|
            0 <= j < pre.entries@[ci].spenders@.len() ==> (
            #[trigger] post.entries@[ci].spenders@[j])@ == pre.entries@[ci].spenders@[j]@,
        post.entries@[ci].spenders@.last()@ == s,
        forall|i: int|
            0 <= i < pre.entries@.len() && i != ci ==> #[trigger] post.entries@[i]
                == pre.entries@[i],
    ensures
        post.wf(),
        post.pair_set() == pre.pair_set().insert((c, s)),
{
    let jn = pre.entries@[ci].spenders@.len() as int;
    assert forall|p: (Seq<u8>, Seq<u8>)| post.pair_set().contains(p) implies pre.pair_set().insert(
        (c, s),
    ).contains(p) by {
        let (i, j) = choose|i: int, j: int|
            0 <= i < post.entries@.len() && 0 <= j < (#[trigger] post.entries@[i]).spenders@.len()
                && post.entries@[i].contract@ == p.0 && (#[trigger] post.entries@[i].spenders@[j])@
                == p.1;
        if i == ci {
            if j < jn {
                assert(pre.entries@[i].contract@ == p.0 && (#[trigger] pre.entries@[i].spenders@[j])@
                    == p.1);
                assert(pre.contains_pair(p.0, p.1));
            } else {
                assert(p == (c, s));
            }
        } else {
            assert(pre.entries@[i].contract@ == p.0 && (#[trigger] pre.entries@[i].spenders@[j])@
                == p.1);
            assert(pre.contains_pair(p.0, p.1));
        }
    }
    assert forall|p: (Seq<u8>, Seq<u8>)| pre.pair_set().insert((c, s)).contains(p) implies
        post.pair_set().contains(p) by {
        if p == (c, s) {
            assert(post.entries@[ci].contract@ == p.0 && (
            #[trigger] post.entries@[ci].spenders@[jn])@ == p.1);
            assert(post.contains_pair(p.0, p.1));
        } else {
            let (i, j) = choose|i: int, j: int|
                0 <= i < pre.entries@.len() && 0 <= j < (
                #[trigger] pre.entries@[i]).spenders@.len() && pre.entries@[i].contract@ == p.0 && (
                #[trigger] pre.entries@[i].spenders@[j])@ == p.1;
            if i == ci {
                assert(post.entries@[i].contract@ == p.0 && (
                #[trigger] post.entries@[i].spenders@[j])@ == p.1);
            } else {
                assert(post.entries@[i].contract@ == p.0 && (
                #[trigger] post.entries@[i].spenders@[j])@ == p.1);
            }
            assert(post.contains_pair(p.0, p.1));
        }
    }
    assert(post.pair_set() =~= pre.pair_set().insert((c, s)));
    assert forall|i: int, j1: int, j2: int|
        0 <= i < post.entries@.len() && 0 <= j1 < j2 < post.entries@[i].spenders@.len() implies (
    #[trigger] post.entries@[i].spenders@[j1])@ != (#[trigger] post.entries@[i].spenders@[j2])@ by {
        if i == ci {
            if j2 < jn {
                assert(pre.entries@[i].spenders@[j1]@ != pre.entries@[i].spenders@[j2]@);
            } else {
                assert(post.entries@[i].spenders@[j2]@ == s);
                assert(post.entries@[i].spenders@[j1]@ == pre.entries@[i].spenders@[j1]@);
            }
        } else {
            assert(pre.entries@[i].spenders@[j1]@ != pre.entries@[i].spenders@[j2]@);
        }
    }
    assert forall|i: int, j: int|
        0 <= i < j < post.entries@.len() implies (#[trigger] post.entries@[i]).contract@ != (
    #[trigger] post.entries@[j]).contract@ by {
        assert(post.entries@[i].contract@ == pre.entries@[i].contract@);
        assert(post.entries@[j].contract@ == pre.entries@[j].contract@);
    }
    assert forall|i: int| 0 <= i < post.entries@.len() implies (
    #[trigger] post.entries@[i]).spenders@.len() >= 1 by {
        if i != ci {
            assert(post.entries@[i] == pre.entries@[i]);
        }
    }
}

/// After appending a fresh entry for an unknown contract, the map holds
/// exactly the old pairs plus the new one, and stays well-formed.
proof fn lemma_append_entry_pair_set(pre: Approvals, post: Approvals, c: Seq<u8>, s: Seq<u8>)
    requires
        pre.wf(),
        forall|i: int| 0 <= i < pre.entries@.len() ==> (#[trigger] pre.entries@[i]).contract@ != c,
        post.entries@.len() == pre.entries@.len() + 1,
        forall|i: int|
            0 <= i < pre.entries@.len() ==> #[trigger] post.entries@[i] == pre.entries@[i],
        post.entries@.last().contract@ == c,
        post.entries@.last().spenders@.len() == 1,
        post.entries@.last().spenders@[0]@ == s,
    ensures
        post.wf(),
        post.pair_set() == pre.pair_set().insert((c, s)),
{
    let n = pre.entries@.len() as int;
    assert forall|p: (Seq<u8>, Seq<u8>)| post.pair_set().contains(p) implies pre.pair_set().insert(
        (c, s),
    ).contains(p) by {
        let (i, j) = choose|i: int, j: int|
            0 <= i < post.entries@.len() && 0 <= j < (#[trigger] post.entries@[i]).spenders@.len()
                && post.entries@[i].contract@ == p.0 && (#[trigger] post.entries@[i].spenders@[j])@
                == p.1;
        if i < n {
            assert(pre.entries@[i].contract@ == p.0 && (#[trigger] pre.entries@[i].spenders@[j])@
                == p.1);
            assert(pre.contains_pair(p.0, p.1));
        } else {
            assert(j == 0);
            assert(p == (c, s));
        }
    }
    assert forall|p: (Seq<u8>, Seq<u8>)| pre.pair_set().insert((c, s)).contains(p) implies
        post.pair_set().contains(p) by {
        if p == (c, s) {
            assert(post.entries@[n].contract@ == p.0 && (#[trigger] post.entries@[n].spenders@[0])@
                == p.1);
            assert(post.contains_pair(p.0, p.1));
        } else {
            let (i, j) = choose|i: int, j: int|
                0 <= i < pre.entries@.len() && 0 <= j < (
                #[trigger] pre.entries@[i]).spenders@.len() && pre.entries@[i].contract@ == p.0 && (
                #[trigger] pre.entries@[i].spenders@[j])@ == p.1;
            assert(post.entries@[i].contract@ == p.0 && (#[trigger] post.entries@[i].spenders@[j])@
                == p.1);
            assert(post.contains_pair(p.0, p.1));
        }
    }
    assert(post.pair_set() =~= pre.pair_set().insert((c, s)));
    assert forall|i: int, j: int|
        0 <= i < j < post.entries@.len() implies (#[trigger] post.entries@[i]).contract@ != (
    #[trigger] post.entries@[j]).contract@ by {
        if j < n {
            assert(post.entries@[i] == pre.entries@[i]);
            assert(post.entries@[j] == pre.entries@[j]);
        } else {
            assert(post.entries@[i] == pre.entries@[i]);
            assert(pre.entries@[i].contract@ != c);
        }
    }
    assert forall|i: int, j1: int, j2: int|
        0 <= i < post.entries@.len() && 0 <= j1 < j2 < post.entries@[i].spenders@.len() implies (
    #[trigger] post.entries@[i].spenders@[j1])@ != (#[trigger] post.entries@[i].spenders@[j2])@ by {
        assert(i < n);
        assert(post.entries@[i] == pre.entries@[i]);
    }
}

/// Processing one more transaction either adds its pair to the derived
/// set (included and decodable) or leaves the set unchanged.
pub proof fn lemma_approvals_step(txs: Seq<Transaction>, owner: Seq<u8>, i: int)
    requires
        0 <= i < txs.len(),
    ensures
        tx_included(txs[i], owner) && tx_decodable(txs[i]) ==> approvals_of(txs.take(i + 1), owner)
            == approvals_of(txs.take(i), owner).insert((tx_contract(txs[i]), tx_spender(txs[i]))),
        !(tx_included(txs[i], owner) && tx_decodable(txs[i])) ==> approvals_of(
            txs.take(i + 1),
            owner,
        ) == approvals_of(txs.take(i), owner),
{
    let short = txs.take(i);
    let long = txs.take(i + 1);
    assert(long.len() == i + 1);
    assert(short.len() == i);
    assert forall|k: int| 0 <= k < i + 1 implies long[k] == txs[k] by {}
    assert forall|k: int| 0 <= k < i implies short[k] == txs[k] by {}
    if tx_included(txs[i], owner) && tx_decodable(txs[i]) {
        let pair = (tx_contract(txs[i]), tx_spender(txs[i]));
        assert forall|p: (Seq<u8>, Seq<u8>)| approvals_of(long, owner).contains(p) implies
            approvals_of(short, owner).insert(pair).contains(p) by {
            let k = choose|k: int|
                0 <= k < long.len() && #[trigger] tx_included(long[k], owner) && tx_decodable(
                    long[k],
                ) && p == (tx_contract(long[k]), tx_spender(long[k]));
            if k < i {
                assert(tx_included(short[k], owner) && tx_decodable(short[k]) && p == (
                tx_contract(short[k]),
                tx_spender(short[k]),
                ));
                assert(approvals_of(short, owner).contains(p));
            } else {
                assert(p == pair);
            }
        }
        assert forall|p: (Seq<u8>, Seq<u8>)| approvals_of(short, owner).insert(pair).contains(p)
            implies approvals_of(long, owner).contains(p) by {
            if p == pair {
                assert(tx_included(long[i], owner) && tx_decodable(long[i]) && p == (
                tx_contract(long[i]),
                tx_spender(long[i]),
                ));
                assert(approvals_of(long, owner).contains(p));
            } else {
                let k = choose|k: int|
                    0 <= k < short.len() && #[trigger] tx_included(short[k], owner) && tx_decodable(
                        short[k],
                    ) && p == (tx_contract(short[k]), tx_spender(short[k]));
                assert(tx_included(long[k], owner) && tx_decodable(long[k]) && p == (
                tx_contract(long[k]),
                tx_spender(long[k]),
                ));
                assert(approvals_of(long, owner).contains(p));
            }
        }
        assert(approvals_of(long, owner) =~= approvals_of(short, owner).insert(pair));
    } else {
        assert forall|p: (Seq<u8>, Seq<u8>)| approvals_of(long, owner).contains(p) implies
            approvals_of(short, owner).contains(p) by {
            let k = choose|k: int|
                0 <= k < long.len() && #[trigger] tx_included(long[k], owner) && tx_decodable(
                    long[k],
                ) && p == (tx_contract(long[k]), tx_spender(long[k]));
            assert(k != i);
            assert(tx_included(short[k], owner) && tx_decodable(short[k]) && p == (
            tx_contract(short[k]),
            tx_spender(short[k]),
            ));
            assert(approvals_of(short, owner).contains(p));
        }
        assert forall|p: (Seq<u8>, Seq<u8>)| approvals_of(short, owner).contains(p) implies
            approvals_of(long, owner).contains(p) by {
            let k = choose|k: int|
                0 <= k < short.len() && #[trigger] tx_included(short[k], owner) && tx_decodable(
                    short[k],
                ) && p == (tx_contract(short[k]), tx_spender(short[k]));
            assert(tx_included(long[k], owner) && tx_decodable(long[k]) && p == (
            tx_contract(long[k]),
            tx_spender(long[k]),
            ));
            assert(approvals_of(long, owner).contains(p));
        }
        assert(approvals_of(long, owner) =~= approvals_of(short, owner));
    }
}

/// Exclusion: a transaction that failed, that the owner did not send, or
/// that calls another method contributes no relationship.
pub proof fn lemma_extract_excludes(txs: Seq<Transaction>, t: Transaction, owner: Seq<u8>)
    requires
        !tx_included(t, owner),
    ensures
        approvals_of(txs.push(t), owner) == approvals_of(txs, owner),
{
    let s = txs.push(t);
    let n = txs.len() as int;
    lemma_approvals_step(s, owner, n);
    assert(s.take(n) =~= txs);
    assert(s.take(n + 1) =~= s);
}

/// Deduplication: a transaction whose (contract, spender) pair the history
/// already derives adds nothing, whatever its amount argument.
pub proof fn lemma_extract_dedup(txs: Seq<Transaction>, t: Transaction, owner: Seq<u8>)
    requires
        tx_included(t, owner),
        tx_decodable(t),
        approvals_of(txs, owner).contains((tx_contract(t), tx_spender(t))),
    ensures
        approvals_of(txs.push(t), owner) == approvals_of(txs, owner),
{
    let s = txs.push(t);
    let n = txs.len() as int;
    lemma_approvals_step(s, owner, n);
    assert(s.take(n) =~= txs);
    assert(s.take(n + 1) =~= s);
    assert(approvals_of(txs, owner).insert((tx_contract(t), tx_spender(t))) =~= approvals_of(
        txs,
        owner,
    ));
}

/// Scans the owner's history and builds the deduplicated relationship
/// map. Malformed call data on an included transaction is deliberately
/// fatal to the whole run, like the entry validations: extraction fails
/// with `MalformedCallData` iff some included transaction's call data
/// does not decode to at least the two `approve` arguments.
pub fn extract(owner: &[u8], transactions: &Vec<Transaction>) -> (r: Result<Approvals, Error>)
    ensures
        r is Ok <==> (forall|i: int|
            0 <= i < transactions@.len() ==> (tx_included(#[trigger] transactions@[i], owner@)
                ==> tx_decodable(transactions@[i]))),
        r matches Ok(m) ==> m.wf() && m.pair_set() == approvals_of(transactions@, owner@),
        r matches Err(e) ==> e == Error::MalformedCallData,
{
    let owner_lc = ascii_lowercase(owner);
    let mut map = Approvals::new();
    proof {
        assert(map.pair_set() =~= approvals_of(transactions@.take(0), owner@));
    }
    let mut idx: usize = 0;
    while idx < transactions.len()
        invariant
            idx <= transactions@.len(),
            owner_lc@ == lower_bytes(owner@),
            map.wf(),
            map.pair_set() == approvals_of(transactions@.take(idx as int), owner@),
            forall|i: int|
                0 <= i < idx ==> (tx_included(#[trigger] transactions@[i], owner@)
                    ==> tx_decodable(transactions@[i])),
        decreases transactions@.len() - idx,
    {
        let tx = &transactions[idx];
        let ghost gtx = transactions@[idx as int];
        let from_lc = ascii_lowercase(tx.from.as_slice());
        let included = bytes_eq(from_lc.as_slice(), owner_lc.as_slice()) && !tx.is_error
            && input_has_approve_selector(tx.input.as_slice());
        proof {
            assert(included == tx_included(gtx, owner@));
        }
        if included {
            let words = match parse_256_method_arguments(tx.input.as_slice()) {
                Ok(w) => w,
                Err(e) => {
                    proof {
                        assert(!tx_decodable(gtx));
                    }
                    return Err(e);
                },
            };
            if words.len() < 2 {
                proof {
                    assert(!tx_decodable(gtx));
                }
                return Err(Error::MalformedCallData);
            }
            proof {
                assert(tx_decodable(gtx));
            }
            let spender = spender_from_word(words[0].as_slice());
            let spender_lc = ascii_lowercase(spender.as_slice());
            let contract_lc = ascii_lowercase(tx.to.as_slice());
            proof {
                assert(contract_lc@ == tx_contract(gtx));
                assert(spender_lc@ == tx_spender(gtx));
            }
            map.insert(contract_lc, spender_lc);
            proof {
                lemma_approvals_step(transactions@, owner@, idx as int);
            }
        } else {
            proof {
                lemma_approvals_step(transactions@, owner@, idx as int);
            }
        }
        idx = idx + 1;
    }
    proof {
        assert(transactions@.take(transactions@.len() as int) =~= transactions@);
    }
    Ok(map)
}

} // verus!
