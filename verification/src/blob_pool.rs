//! A set of validated blob transactions that are not pending: tracks
//! insertion order, overall size, and evicts whole sender tails that no
//! longer satisfy the current fee minimums.

use vstd::prelude::*;

verus! {

/// A transaction's identity inside the pool: sender and nonce.
#[derive(Clone, Copy, PartialEq, Eq, Structural, Debug)]
pub struct TransactionId {
    pub sender: u64,
    pub nonce: u64,
}

/// Strict order by sender, then nonce: the iteration order of the pool.
pub open spec fn id_lt(a: TransactionId, b: TransactionId) -> bool {
    a.sender < b.sender || (a.sender == b.sender && a.nonce < b.nonce)
}

/// The data of a validated pool transaction that this sub-pool reads.
#[derive(Clone, Copy, Debug)]
pub struct PoolTransaction {
    pub id: TransactionId,
    pub size: usize,
    pub is_eip4844: bool,
    pub max_fee_per_gas: u128,
    pub max_fee_per_blob_gas: Option<u128>,
}

/// The value that determines a blob transaction's eviction order.
#[derive(Clone, Copy, Debug)]
pub struct BlobOrd {
    /// Tags when the transaction was submitted to the pool.
    pub submission_id: u64,
}

/// A pooled blob transaction together with its eviction order value.
#[derive(Clone, Copy, Debug)]
pub struct BlobTransaction {
    pub transaction: PoolTransaction,
    pub ord: BlobOrd,
}

/// The current fee minimums a pending transaction must satisfy.
#[derive(Clone, Copy, Debug)]
pub struct PendingFees {
    pub base_fee: u64,
    pub blob_fee: u128,
}

/// Fee attributes a caller asks best transactions to satisfy.
#[derive(Clone, Copy, Debug)]
pub struct BestTransactionsAttributes {
    pub basefee: u64,
    pub blob_fee: Option<u64>,
}

/// The total reported size of a list of transactions.
pub open spec fn sum_sizes(es: Seq<BlobTransaction>) -> nat
    decreases es.len(),
{
    if es.len() == 0 {
        0
    } else {
        (sum_sizes(es.drop_last()) + es.last().transaction.size) as nat
    }
}

/// Whether a transaction meets both fee minimums.
pub open spec fn fee_ok(t: PoolTransaction, fees: PendingFees) -> bool {
    &&& match t.max_fee_per_blob_gas {
        Some(m) => m >= fees.blob_fee,
        None => false,
    }
    &&& t.max_fee_per_gas >= fees.base_fee as u128
}

/// Entry `i` is returned by the fee scan: it meets the minimums and no
/// earlier transaction of the same sender fails them (a failing ancestor
/// parks its descendants).
pub open spec fn eligible(es: Seq<BlobTransaction>, fees: PendingFees, i: int) -> bool {
    &&& fee_ok(es[i].transaction, fees)
    &&& forall|j: int|
        0 <= j < i && (#[trigger] es[j]).transaction.id.sender == es[i].transaction.id.sender
            ==> fee_ok(es[j].transaction, fees)
}

/// The identifiers of the eligible entries, in pool order.
#[verifier::opaque]
pub open spec fn sat_ids(es: Seq<BlobTransaction>, fees: PendingFees) -> Seq<TransactionId>
    decreases es.len(),
{
    if es.len() == 0 {
        Seq::empty()
    } else {
        let front = sat_ids(es.drop_last(), fees);
        if eligible(es, fees, es.len() - 1) {
            front.push(es.last().transaction.id)
        } else {
            front
        }
    }
}

/// The pool holds the transaction with this identifier.
pub open spec fn contains_id(es: Seq<BlobTransaction>, id: TransactionId) -> bool {
    exists|i: int| 0 <= i < es.len() && (#[trigger] es[i]).transaction.id == id
}

/// Removal of the first entry carrying `id`.
pub open spec fn remove_id(es: Seq<BlobTransaction>, id: TransactionId) -> Seq<BlobTransaction>
    decreases es.len(),
{
    if es.len() == 0 {
        es
    } else if es[0].transaction.id == id {
        es.skip(1)
    } else {
        seq![es[0]] + remove_id(es.skip(1), id)
    }
}

/// A set of validated blob transactions in the pool that are not
/// pending, ordered by sender and nonce; a parallel list orders the same
/// transactions by submission for eviction.
pub struct BlobTransactions {
    /// Counter tagging when transactions entered the pool.
    submission_id: u64,
    /// All transactions, in sender/nonce order.
    by_id: Vec<BlobTransaction>,
    /// The same transactions, newest submission first.
    all: Vec<BlobTransaction>,
    /// Total reported size of the held transactions.
    size_of: usize,
}

/// Ordered insertion by identifier.
pub open spec fn insert_by_id(es: Seq<BlobTransaction>, t: BlobTransaction) -> Seq<
    BlobTransaction,
>
    decreases es.len(),
{
    if es.len() == 0 {
        seq![t]
    } else if id_lt(es[0].transaction.id, t.transaction.id) {
        seq![es[0]] + insert_by_id(es.skip(1), t)
    } else {
        seq![t] + es
    }
}

proof fn lemma_sum_insert(s: Seq<BlobTransaction>, i: int, v: BlobTransaction)
    requires
        0 <= i <= s.len(),
    ensures
        sum_sizes(s.insert(i, v)) == sum_sizes(s) + v.transaction.size,
    decreases s.len(),
{
    if i == s.len() {
        assert(s.insert(i, v) =~= s.push(v));
        assert(s.push(v).drop_last() =~= s);
    } else {
        assert(s.insert(i, v).drop_last() =~= s.drop_last().insert(i, v));
        assert(s.insert(i, v).last() == s.last());
        lemma_sum_insert(s.drop_last(), i, v);
    }
}

proof fn lemma_sum_remove(s: Seq<BlobTransaction>, i: int)
    requires
        0 <= i < s.len(),
    ensures
        sum_sizes(s) == sum_sizes(s.remove(i)) + s[i].transaction.size,
    decreases s.len(),
{
    if i == s.len() - 1 {
        assert(s.remove(i) =~= s.drop_last());
    } else {
        assert(s.remove(i).drop_last() =~= s.drop_last().remove(i));
        assert(s.remove(i).last() == s.last());
        lemma_sum_remove(s.drop_last(), i);
    }
}

proof fn lemma_multiset_insert(s: Seq<BlobTransaction>, i: int, v: BlobTransaction)
    requires
        0 <= i <= s.len(),
    ensures
        s.insert(i, v).to_multiset() == s.to_multiset().insert(v),
{
    let x = s.insert(i, v);
    x.to_multiset_ensures();
    s.to_multiset_ensures();
    assert(x.remove(i) =~= s);
    assert(x[i] == v);
    assert(s.to_multiset() == x.to_multiset().remove(v));
    assert(x.contains(v)) by {
        assert(x[i] == v);
    }
    assert(x.to_multiset().count(v) > 0);
    assert(x.to_multiset() =~= s.to_multiset().insert(v));
}

/// Strict descending submission order extends to all pairs.
proof fn lemma_desc_all(s: Seq<BlobTransaction>, i: int, j: int)
    requires
        forall|k: int|
            0 <= k < s.len() - 1 ==> (#[trigger] s[k]).ord.submission_id > s[k
                + 1].ord.submission_id,
        0 <= i < j < s.len(),
    ensures
        s[i].ord.submission_id > s[j].ord.submission_id,
    decreases j - i,
{
    if i + 1 == j {
    } else {
        lemma_desc_all(s, i, j - 1);
    }
}

/// Every entry before position `b` whose sender still occurs at or
/// after `b` meets the fee minimums: the scan has not passed a parked
/// group whose sender is still pending.
pub open spec fn clean_before(es: Seq<BlobTransaction>, fees: PendingFees, b: int) -> bool {
    forall|j: int, j2: int|
        0 <= j < b <= j2 < es.len() && (#[trigger] es[j]).transaction.id.sender == (
        #[trigger] es[j2]).transaction.id.sender ==> fee_ok(es[j].transaction, fees)
}

/// Skipping a parked sender's whole tail leaves the scan result as it
/// was at the failing entry.
proof fn lemma_sat_skip_range(es: Seq<BlobTransaction>, fees: PendingFees, i0: int, a: int, b: int)
    requires
        0 <= i0 < a <= b <= es.len(),
        es[i0].transaction.id.sender == es[i0].transaction.id.sender,
        !fee_ok(es[i0].transaction, fees),
        forall|k: int| i0 <= k < b ==> (#[trigger] es[k]).transaction.id.sender == es[
            i0
        ].transaction.id.sender,
    ensures
        sat_ids(es.take(b), fees) == sat_ids(es.take(a), fees),
    decreases b - a,
{
    if a == b {
    } else {
        lemma_sat_skip(es, fees, i0, b - 1);
        lemma_sat_skip_range(es, fees, i0, a, b - 1);
    }
}

proof fn lemma_clean_step_ok(es: Seq<BlobTransaction>, fees: PendingFees, i: int)
    requires
        0 <= i < es.len(),
        clean_before(es, fees, i),
        fee_ok(es[i].transaction, fees),
    ensures
        clean_before(es, fees, i + 1),
{
    assert forall|j: int, j2: int|
        0 <= j < i + 1 <= j2 < es.len() && (#[trigger] es[j]).transaction.id.sender == (
        #[trigger] es[j2]).transaction.id.sender implies fee_ok(es[j].transaction, fees) by {
        if j < i {
            assert(es[j].transaction.id.sender == es[j2].transaction.id.sender);
        }
    }
}

proof fn lemma_clean_after_group(es: Seq<BlobTransaction>, fees: PendingFees, i0: int, i: int)
    requires
        0 <= i0 < i <= es.len(),
        ids_sorted(es),
        clean_before(es, fees, i0),
        forall|k: int| i0 <= k < i ==> (#[trigger] es[k]).transaction.id.sender == es[
            i0
        ].transaction.id.sender,
        i < es.len() ==> es[i].transaction.id.sender != es[i0].transaction.id.sender,
    ensures
        clean_before(es, fees, i),
{
    let s = es[i0].transaction.id.sender;
    assert forall|j: int, j2: int|
        0 <= j < i <= j2 < es.len() && (#[trigger] es[j]).transaction.id.sender == (
        #[trigger] es[j2]).transaction.id.sender implies fee_ok(es[j].transaction, fees) by {
        if j < i0 {
        } else {
            // j lies in the parked group, so es[j2] would carry sender
            // `s` past the group boundary: impossible, senders are
            // monotone and the group ended at `i`
            assert(es[j].transaction.id.sender == s);
            assert(i <= j2 < es.len());
            if i < j2 {
                lemma_ids_sorted_all(es, j, i);
                lemma_ids_sorted_all(es, i, j2);
            } else {
                lemma_ids_sorted_all(es, j, i);
            }
            assert(es[i].transaction.id.sender == s);
            assert(false);
        }
    }
}


/// Scans an identifier-ordered list for the entries meeting the fee
/// minimums, skipping the rest of a sender's tail after a failure.
fn fee_scan(v: &Vec<BlobTransaction>, pending_fees: &PendingFees) -> (r: Vec<TransactionId>)
    requires
        ids_sorted(v@),
    ensures
        r@ == sat_ids(v@, *pending_fees),
{
    let ghost es = v@;
    let ghost fees = *pending_fees;
    let mut out: Vec<TransactionId> = Vec::new();
    let n = v.len();
    let mut i: usize = 0;
    proof {
        assert(es.take(0) =~= Seq::<BlobTransaction>::empty());
        assert(out@ == sat_ids(es.take(0), fees)) by {
            reveal(sat_ids);
        }
        assert(clean_before(es, fees, 0));
    }
    while i < n
        invariant
            i <= n,
            n == es.len(),
            v@ == es,
            ids_sorted(es),
            fees == *pending_fees,
            out@ == sat_ids(es.take(i as int), fees),
            clean_before(es, fees, i as int),
        decreases n - i,
    {
        let t = v[i];
        let ghost i0 = i as int;
        if fee_ok_exec(&t.transaction, pending_fees) {
            out.push(t.transaction.id);
            proof {
                assert(eligible(es, fees, i0));
                lemma_sat_push(es, fees, i0);
                lemma_clean_step_ok(es, fees, i0);
            }
            i += 1;
        } else {
            // a failing transaction parks its whole sender tail
            let s = t.transaction.id.sender;
            proof {
                lemma_sat_skip(es, fees, i0, i0);
            }
            i += 1;
            while i < n && v[i].transaction.id.sender == s
                invariant
                    i0 < i <= n,
                    n == es.len(),
                    v@ == es,
                    s == es[i0].transaction.id.sender,
                    forall|k: int| i0 <= k < i ==> (#[trigger] es[k]).transaction.id.sender == s,
                decreases n - i,
            {
                i += 1;
            }
            proof {
                lemma_sat_skip_range(es, fees, i0, i0 + 1, i as int);
                lemma_clean_after_group(es, fees, i0, i as int);
            }
        }
    }
    proof {
        assert(es.take(n as int) =~= es);
    }
    out
}

/// Removal of each listed identifier in turn.
pub open spec fn remove_ids(es: Seq<BlobTransaction>, ids: Seq<TransactionId>) -> Seq<
    BlobTransaction,
>
    decreases ids.len(),
{
    if ids.len() == 0 {
        es
    } else {
        remove_ids(remove_id(es, ids[0]), ids.skip(1))
    }
}

/// Every scan result identifier is in the pool, and the results are
/// strictly ordered (hence distinct).
proof fn lemma_sat_ids_from(es: Seq<BlobTransaction>, fees: PendingFees)
    requires
        ids_sorted(es),
    ensures
        forall|k: int|
            0 <= k < sat_ids(es, fees).len() ==> contains_id(es, #[trigger] sat_ids(es, fees)[k]),
        forall|k1: int, k2: int|
            0 <= k1 < k2 < sat_ids(es, fees).len() ==> id_lt(
                #[trigger] sat_ids(es, fees)[k1],
                #[trigger] sat_ids(es, fees)[k2],
            ),
    decreases es.len(),
{
    reveal(sat_ids);
    if es.len() == 0 {
    } else {
        let front = es.drop_last();
        assert(forall|i: int| 0 <= i < front.len() ==> #[trigger] front[i] == es[i]);
        assert(ids_sorted(front));
        lemma_sat_ids_from(front, fees);
        let sf = sat_ids(front, fees);
        let s = sat_ids(es, fees);
        // membership carries over, and anything in the front sorts below
        // the last entry's identifier
        assert forall|k: int| 0 <= k < sf.len() implies contains_id(es, #[trigger] sf[k])
            && (es.len() >= 2 ==> id_lt(sf[k], es.last().transaction.id)) by {
            assert(contains_id(front, sf[k]));
            let j = choose|j: int|
                0 <= j < front.len() && (#[trigger] front[j]).transaction.id == sf[k];
            assert(es[j].transaction.id == sf[k]);
            if es.len() >= 2 {
                if j < es.len() - 1 {
                    lemma_ids_sorted_all(es, j, es.len() - 1);
                }
            }
        }
        if eligible(es, fees, es.len() - 1) {
            assert(s == sf.push(es.last().transaction.id));
            assert(contains_id(es, es.last().transaction.id)) by {
                assert(es[es.len() - 1].transaction.id == es.last().transaction.id);
            }
        } else {
            assert(s == sf);
        }
    }
}

/// Removing one identifier keeps every other present identifier.
proof fn lemma_remove_id_keeps(es: Seq<BlobTransaction>, a: TransactionId, b: TransactionId)
    requires
        contains_id(es, b),
        b != a,
    ensures
        contains_id(remove_id(es, a), b),
    decreases es.len(),
{
    let out = remove_id(es, a);
    let w = choose|w: int| 0 <= w < es.len() && (#[trigger] es[w]).transaction.id == b;
    if es[0].transaction.id == a {
        assert(w >= 1);
        assert(out == es.skip(1));
        assert(out[w - 1].transaction.id == b);
    } else {
        if w == 0 {
            assert(out =~= seq![es[0]] + remove_id(es.skip(1), a));
            assert(out[0].transaction.id == b);
        } else {
            let tail = es.skip(1);
            assert(tail[w - 1].transaction.id == b);
            assert(contains_id(tail, b));
            lemma_remove_id_keeps(tail, a, b);
            let w2 = choose|w2: int|
                0 <= w2 < remove_id(tail, a).len() && (#[trigger] remove_id(tail, a)[
                    w2
                ]).transaction.id == b;
            assert(out =~= seq![es[0]] + remove_id(tail, a));
            assert(out[w2 + 1].transaction.id == b);
        }
    }
}

/// Whether a transaction meets both fee minimums, executably.
fn fee_ok_exec(t: &PoolTransaction, fees: &PendingFees) -> (r: bool)
    ensures
        r == fee_ok(*t, *fees),
{
    let blob_ok = match t.max_fee_per_blob_gas {
        Some(m) => m >= fees.blob_fee,
        None => false,
    };
    blob_ok && t.max_fee_per_gas >= fees.base_fee as u128
}

/// The identifier order extends to all pairs, and senders are monotone.
proof fn lemma_ids_sorted_all(es: Seq<BlobTransaction>, i: int, j: int)
    requires
        ids_sorted(es),
        0 <= i < j < es.len(),
    ensures
        id_lt(es[i].transaction.id, es[j].transaction.id),
        es[i].transaction.id.sender <= es[j].transaction.id.sender,
    decreases j - i,
{
    if i + 1 == j {
    } else {
        lemma_ids_sorted_all(es, i, j - 1);
    }
}

/// One eligible entry extends the scan result by its identifier.
proof fn lemma_sat_push(es: Seq<BlobTransaction>, fees: PendingFees, k: int)
    requires
        0 <= k < es.len(),
        eligible(es, fees, k),
    ensures
        sat_ids(es.take(k + 1), fees) == sat_ids(es.take(k), fees).push(es[k].transaction.id),
{
    reveal(sat_ids);
    let t = es.take(k + 1);
    assert(forall|j: int| 0 <= j < k + 1 ==> #[trigger] t[j] == es[j]);
    assert(eligible(t, fees, k));
    assert(t.drop_last() =~= es.take(k));
    assert(t.last() == es[k]);
}

/// An ineligible entry leaves the scan result unchanged.
proof fn lemma_sat_skip(es: Seq<BlobTransaction>, fees: PendingFees, i0: int, k: int)
    requires
        0 <= i0 <= k < es.len(),
        es[k].transaction.id.sender == es[i0].transaction.id.sender,
        !fee_ok(es[i0].transaction, fees),
    ensures
        sat_ids(es.take(k + 1), fees) == sat_ids(es.take(k), fees),
{
    reveal(sat_ids);
    let t = es.take(k + 1);
    assert(forall|j: int| 0 <= j < k + 1 ==> #[trigger] t[j] == es[j]);
    assert(!eligible(t, fees, k)) by {
        if i0 == k {
            assert(!fee_ok(t[k].transaction, fees));
        } else {
            assert(t[i0].transaction.id.sender == t[k].transaction.id.sender);
            assert(!fee_ok(t[i0].transaction, fees));
        }
    }
    assert(t.drop_last() =~= es.take(k));
}

/// Strict identifier order, executably.
fn id_lt_exec(a: &TransactionId, b: &TransactionId) -> (r: bool)
    ensures
        r == id_lt(*a, *b),
{
    a.sender < b.sender || (a.sender == b.sender && a.nonce < b.nonce)
}

/// Ordered insertion is insertion at the first non-smaller position.
proof fn lemma_insert_by_id_at(es: Seq<BlobTransaction>, t: BlobTransaction, p: int)
    requires
        0 <= p <= es.len(),
        forall|j: int| 0 <= j < p ==> id_lt((#[trigger] es[j]).transaction.id, t.transaction.id),
        p < es.len() ==> !id_lt(es[p].transaction.id, t.transaction.id),
    ensures
        insert_by_id(es, t) == es.insert(p, t),
    decreases es.len(),
{
    if es.len() == 0 {
        assert(insert_by_id(es, t) =~= es.insert(0, t));
    } else if p == 0 {
        assert(insert_by_id(es, t) =~= es.insert(0, t));
    } else {
        let tail = es.skip(1);
        assert(forall|j: int| 0 <= j < tail.len() ==> #[trigger] tail[j] == es[j + 1]);
        lemma_insert_by_id_at(tail, t, p - 1);
        assert(insert_by_id(es, t) =~= seq![es[0]] + tail.insert(p - 1, t));
        assert(seq![es[0]] + tail.insert(p - 1, t) =~= es.insert(p, t));
    }
}

/// Removal by identifier is removal at the first matching position.
proof fn lemma_remove_id_at(es: Seq<BlobTransaction>, id: TransactionId, i: int)
    requires
        0 <= i < es.len(),
        es[i].transaction.id == id,
        forall|j: int| 0 <= j < i ==> (#[trigger] es[j]).transaction.id != id,
    ensures
        remove_id(es, id) == es.remove(i),
    decreases es.len(),
{
    if i == 0 {
        assert(remove_id(es, id) =~= es.remove(0));
    } else {
        let tail = es.skip(1);
        assert(forall|j: int| 0 <= j < tail.len() ==> #[trigger] tail[j] == es[j + 1]);
        lemma_remove_id_at(tail, id, i - 1);
        assert(remove_id(es, id) =~= seq![es[0]] + tail.remove(i - 1));
        assert(seq![es[0]] + tail.remove(i - 1) =~= es.remove(i));
    }
}


/// The identifier order of the pool's main list.
pub open spec fn ids_sorted(es: Seq<BlobTransaction>) -> bool {
    forall|i: int|
        0 <= i < es.len() - 1 ==> id_lt((#[trigger] es[i]).transaction.id, es[i + 1].transaction.id)
}

/// Strict descending submission order of the eviction list.
pub open spec fn subs_desc(es: Seq<BlobTransaction>) -> bool {
    forall|i: int|
        0 <= i < es.len() - 1 ==> (#[trigger] es[i]).ord.submission_id > es[i + 1].ord.submission_id
}

/// Inserts into the identifier-ordered list.
#[verifier::rlimit(100)]
fn insert_by_id_exec(v: &mut Vec<BlobTransaction>, t: BlobTransaction)
    requires
        ids_sorted(old(v)@),
        forall|j: int| 0 <= j < old(v)@.len() ==> (#[trigger] old(v)@[j]).transaction.id != t.transaction.id,
    ensures
        final(v)@ == insert_by_id(old(v)@, t),
        ids_sorted(final(v)@),
        final(v)@.to_multiset() == old(v)@.to_multiset().insert(t),
        sum_sizes(final(v)@) == sum_sizes(old(v)@) + t.transaction.size,
{
    let ghost es0 = v@;
    let mut i: usize = 0;
    while i < v.len() && id_lt_exec(&v[i].transaction.id, &t.transaction.id)
        invariant
            i <= v@.len(),
            v@ == es0,
            forall|j: int| 0 <= j < i ==> id_lt((#[trigger] es0[j]).transaction.id, t.transaction.id),
        decreases v@.len() - i,
    {
        i += 1;
    }
    let ghost p = i as int;
    proof {
        lemma_insert_by_id_at(es0, t, p);
        if p < es0.len() {
            assert(id_lt(t.transaction.id, es0[p].transaction.id));
        }
    }
    v.insert(i, t);
    proof {
        assert(v@ == es0.insert(p, t));
        lemma_sum_insert(es0, p, t);
        lemma_multiset_insert(es0, p, t);
        assert forall|j: int| 0 <= j < v@.len() - 1 implies id_lt(
            (#[trigger] v@[j]).transaction.id,
            v@[j + 1].transaction.id,
        ) by {
            if j < p - 1 {
                assert(v@[j] == es0[j] && v@[j + 1] == es0[j + 1]);
            } else if j == p - 1 {
                assert(v@[j] == es0[j] && v@[j + 1] == t);
            } else if j == p {
                assert(v@[j] == t && v@[j + 1] == es0[j]);
            } else {
                assert(v@[j] == es0[j - 1] && v@[j + 1] == es0[j]);
            }
        }
    }
}

/// Puts a freshly tagged transaction at the head of the eviction list.
#[verifier::rlimit(100)]
fn push_newest(v: &mut Vec<BlobTransaction>, t: BlobTransaction)
    requires
        subs_desc(old(v)@),
        forall|j: int| 0 <= j < old(v)@.len() ==> (#[trigger] old(v)@[j]).ord.submission_id < t.ord.submission_id,
    ensures
        final(v)@ == old(v)@.insert(0, t),
        subs_desc(final(v)@),
        final(v)@.to_multiset() == old(v)@.to_multiset().insert(t),
{
    let ghost es0 = v@;
    v.insert(0, t);
    proof {
        assert(v@ == es0.insert(0, t));
        lemma_multiset_insert(es0, 0, t);
        assert forall|j: int| 0 <= j < v@.len() - 1 implies (
        #[trigger] v@[j]).ord.submission_id > v@[j + 1].ord.submission_id by {
            if j == 0 {
                assert(v@[0] == t && v@[1] == es0[0]);
            } else {
                assert(v@[j] == es0[j - 1] && v@[j + 1] == es0[j]);
            }
        }
    }
}

impl View for BlobTransactions {
    type V = Seq<BlobTransaction>;

    closed spec fn view(&self) -> Seq<BlobTransaction> {
        self.by_id@
    }
}

impl BlobTransactions {
    /// Sorted, consistent with the eviction list, and sized correctly.
    pub closed spec fn wf(&self) -> bool {
        &&& ids_sorted(self.by_id@)
        &&& subs_desc(self.all@)
        &&& self.by_id@.to_multiset() == self.all@.to_multiset()
        &&& self.size_of == sum_sizes(self.by_id@)
        &&& forall|i: int|
            0 <= i < self.all@.len() ==> (#[trigger] self.all@[i]).ord.submission_id
                < self.submission_id
    }

    /// The entries are strictly ordered by identifier.
    pub proof fn lemma_sorted(&self)
        requires
            self.wf(),
        ensures
            ids_sorted(self@),
    {
    }

    /// An empty pool.
    pub fn new() -> (r: Self)
        ensures
            r@ == Seq::<BlobTransaction>::empty(),
            r.wf(),
    {
        let r = BlobTransactions {
            submission_id: 0,
            by_id: Vec::new(),
            all: Vec::new(),
            size_of: 0,
        };
        proof {
            assert(r.by_id@.to_multiset() =~= r.all@.to_multiset());
        }
        r
    }

    /// The next submission tag.
    pub fn next_id(&mut self) -> (r: u64)
        requires
            old(self).wf(),
            old(self).submission_tag() < u64::MAX,
        ensures
            final(self).wf(),
            final(self)@ == old(self)@,
            r == old(self).submission_tag(),
            final(self).submission_tag() == old(self).submission_tag() + 1,
    {
        let id = self.submission_id;
        self.submission_id = self.submission_id + 1;
        id
    }

    /// The current submission counter.
    pub closed spec fn submission_tag(&self) -> u64 {
        self.submission_id
    }

    /// Adds a new transaction to the pool, tagged with the next
    /// submission identifier. The transaction must be a blob transaction
    /// and must not already be included.
    #[verifier::rlimit(100)]
    #[verifier::spinoff_prover]
    pub fn add_transaction(&mut self, tx: PoolTransaction)
        requires
            old(self).wf(),
            tx.is_eip4844,
            !contains_id(old(self)@, tx.id),
            sum_sizes(old(self)@) + tx.size <= usize::MAX,
            old(self).submission_tag() < u64::MAX,
        ensures
            final(self).wf(),
            final(self)@ == insert_by_id(
                old(self)@,
                BlobTransaction {
                    transaction: tx,
                    ord: BlobOrd { submission_id: old(self).submission_tag() },
                },
            ),
            final(self).submission_tag() == old(self).submission_tag() + 1,
    {
        let submission_id = self.submission_id;
        self.submission_id = self.submission_id + 1;
        self.size_of = self.size_of + tx.size;
        let ord = BlobOrd { submission_id };
        let transaction = BlobTransaction { ord, transaction: tx };
        proof {
            assert forall|j: int| 0 <= j < self.by_id@.len() implies (
            #[trigger] self.by_id@[j]).transaction.id != transaction.transaction.id by {
                if self.by_id@[j].transaction.id == tx.id {
                    assert(contains_id(old(self)@, tx.id));
                }
            }
        }
        let ghost all0 = self.all@;
        insert_by_id_exec(&mut self.by_id, transaction);
        proof {
            assert(subs_desc(self.all@));
            assert forall|j: int| 0 <= j < self.all@.len() implies (
            #[trigger] self.all@[j]).ord.submission_id < transaction.ord.submission_id by {
            }
        }
        push_newest(&mut self.all, transaction);
        proof {
            assert forall|i: int| 0 <= i < self.all@.len() implies (
            #[trigger] self.all@[i]).ord.submission_id < self.submission_id by {
                if i == 0 {
                    assert(self.all@[0] == transaction);
                } else {
                    assert(self.all@[i] == all0[i - 1]);
                }
            }
        }
    }

    /// Removes the transaction with the given identifier from the pool,
    /// returning it when present.
    #[verifier::rlimit(60)]
    pub fn remove_transaction(&mut self, id: &TransactionId) -> (r: Option<PoolTransaction>)
        requires
            old(self).wf(),
        ensures
            final(self).wf(),
            final(self).submission_tag() == old(self).submission_tag(),
            match r {
                Some(tx) => contains_id(old(self)@, *id) && tx.id == *id && final(self)@
                    == remove_id(old(self)@, *id),
                None => !contains_id(old(self)@, *id) && final(self)@ == old(self)@,
            },
    {
        let ghost es0 = self.by_id@;
        let mut i: usize = 0;
        while i < self.by_id.len() && !(self.by_id[i].transaction.id == *id)
            invariant
                i <= self.by_id@.len(),
                self.by_id@ == es0,
                forall|j: int| 0 <= j < i ==> (#[trigger] es0[j]).transaction.id != *id,
            decreases self.by_id@.len() - i,
        {
            i += 1;
        }
        if i == self.by_id.len() {
            proof {
                if contains_id(es0, *id) {
                    let w = choose|w: int|
                        0 <= w < es0.len() && (#[trigger] es0[w]).transaction.id == *id;
                }
            }
            return None;
        }
        let victim = self.by_id[i];
        proof {
            assert(es0[i as int].transaction.id == *id);
            lemma_remove_id_at(es0, *id, i as int);
            lemma_sum_remove(es0, i as int);
            es0.to_multiset_ensures();
        }
        self.by_id.remove(i);
        self.size_of = self.size_of - victim.transaction.size;
        proof {
            assert(self.by_id@ == es0.remove(i as int));
            assert forall|j: int| 0 <= j < self.by_id@.len() - 1 implies id_lt(
                (#[trigger] self.by_id@[j]).transaction.id,
                self.by_id@[j + 1].transaction.id,
            ) by {
                if j < i as int - 1 {
                    assert(self.by_id@[j] == es0[j] && self.by_id@[j + 1] == es0[j + 1]);
                } else if j == i as int - 1 {
                    assert(self.by_id@[j] == es0[j] && self.by_id@[j + 1] == es0[j + 2]);
                } else {
                    assert(self.by_id@[j] == es0[j + 1] && self.by_id@[j + 1] == es0[j + 2]);
                }
            }
        }
        // drop the same transaction from the eviction order
        let ghost all0 = self.all@;
        proof {
            // the multiset equality puts the victim somewhere in `all`
            all0.to_multiset_ensures();
            assert(es0.contains(es0[i as int]));
            assert(all0.to_multiset().count(victim) > 0);
            assert(all0.contains(victim));
        }
        let mut k: usize = 0;
        while k < self.all.len() && !(self.all[k].ord.submission_id
            == victim.ord.submission_id)
            invariant
                k <= self.all@.len(),
                self.all@ == all0,
                victim == es0[i as int],
                all0.contains(victim),
                forall|j: int|
                    0 <= j < k ==> (#[trigger] all0[j]).ord.submission_id
                        != victim.ord.submission_id,
            decreases self.all@.len() - k,
        {
            k += 1;
        }
        proof {
            let w = choose|w: int| 0 <= w < all0.len() && all0[w] == victim;
            assert(all0[w].ord.submission_id == victim.ord.submission_id);
            assert(k < self.all@.len());
            // submission tags are unique in the descending order
            assert(all0[k as int] == victim) by {
                if k as int != w {
                    if (k as int) < w {
                        lemma_desc_all(all0, k as int, w);
                    } else {
                        lemma_desc_all(all0, w, k as int);
                    }
                }
            }
            all0.to_multiset_ensures();
        }
        self.all.remove(k);
        proof {
            assert(self.all@ == all0.remove(k as int));
            assert forall|j: int| 0 <= j < self.all@.len() - 1 implies (
            #[trigger] self.all@[j]).ord.submission_id > self.all@[j + 1].ord.submission_id by {
                if j < k as int - 1 {
                    assert(self.all@[j] == all0[j] && self.all@[j + 1] == all0[j + 1]);
                } else if j == k as int - 1 {
                    assert(self.all@[j] == all0[j] && self.all@[j + 1] == all0[j + 2]);
                    lemma_desc_all(all0, j, j + 2);
                } else {
                    assert(self.all@[j] == all0[j + 1] && self.all@[j + 1] == all0[j + 2]);
                }
            }
            assert(self.by_id@.to_multiset() =~= self.all@.to_multiset());
        }
        Some(victim.transaction)
    }

    /// Returns the identifiers of all transactions that meet both fee
    /// minimums and have no failing same-sender ancestor, in pool order.
    pub fn satisfy_pending_fee_ids(&self, pending_fees: &PendingFees) -> (r: Vec<TransactionId>)
        requires
            self.wf(),
        ensures
            r@ == sat_ids(self@, *pending_fees),
    {
        fee_scan(&self.by_id, pending_fees)
    }

    /// Returns all transactions that satisfy the given basefee and blob
    /// fee attributes; this sub-pool reports none as satisfying them.
    pub fn satisfy_attributes(
        &self,
        best_transactions_attributes: BestTransactionsAttributes,
    ) -> (r: Vec<PoolTransaction>)
        ensures
            r@ == Seq::<PoolTransaction>::empty(),
    {
        let r: Vec<PoolTransaction> = Vec::new();
        proof {
            assert(r@ =~= Seq::<PoolTransaction>::empty());
        }
        r
    }

    /// Removes every transaction (and its same-sender descendants) that
    /// fails the given fee minimums, returning the removed transactions
    /// in scan order.
    pub fn enforce_pending_fees(&mut self, pending_fees: &PendingFees) -> (r: Vec<
        PoolTransaction,
    >)
        requires
            old(self).wf(),
        ensures
            final(self).wf(),
            r@.len() == sat_ids(old(self)@, *pending_fees).len(),
            forall|k: int|
                0 <= k < r@.len() ==> (#[trigger] r@[k]).id == sat_ids(
                    old(self)@,
                    *pending_fees,
                )[k],
            final(self)@ == remove_ids(old(self)@, sat_ids(old(self)@, *pending_fees)),
    {
        let to_remove = self.satisfy_pending_fee_ids(pending_fees);
        let ghost es0 = self@;
        let ghost ids = sat_ids(es0, *pending_fees);
        proof {
            lemma_sat_ids_from(es0, *pending_fees);
            assert(ids.skip(0) =~= ids);
            assert(remove_ids(es0, ids) == remove_ids(self@, ids.skip(0)));
        }
        let mut removed: Vec<PoolTransaction> = Vec::new();
        let n = to_remove.len();
        let mut k: usize = 0;
        while k < n
            invariant
                k <= n,
                n == ids.len(),
                to_remove@ == ids,
                self.wf(),
                removed@.len() == k,
                forall|k2: int| 0 <= k2 < k ==> (#[trigger] removed@[k2]).id == ids[k2],
                forall|idx: int| k <= idx < n ==> contains_id(self@, #[trigger] ids[idx]),
                forall|k1: int, k2: int| 0 <= k1 < k2 < n ==> id_lt(#[trigger] ids[k1], #[trigger] ids[k2]),
                remove_ids(es0, ids) == remove_ids(self@, ids.skip(k as int)),
            decreases n - k,
        {
            let ghost pre = self@;
            match self.remove_transaction(&to_remove[k]) {
                Some(tx) => {
                    removed.push(tx);
                },
                None => {
                    proof {
                        assert(contains_id(pre, ids[k as int]));
                        assert(false);
                    }
                },
            }
            proof {
                assert(ids.skip(k as int)[0] == ids[k as int]);
                assert(ids.skip(k as int).skip(1) =~= ids.skip(k as int + 1));
                assert forall|idx: int| k + 1 <= idx < n implies contains_id(
                    self@,
                    #[trigger] ids[idx],
                ) by {
                    assert(id_lt(ids[k as int], ids[idx]));
                    assert(ids[idx] != ids[k as int]);
                    lemma_remove_id_keeps(pre, ids[k as int], ids[idx]);
                }
            }
            k += 1;
        }
        proof {
            assert(ids.skip(n as int) =~= Seq::<TransactionId>::empty());
        }
        removed
    }

    /// Number of transactions in the entire pool.
    pub fn len(&self) -> (r: usize)
        ensures
            r == self@.len(),
    {
        self.by_id.len()
    }

    /// Whether the pool is empty.
    pub fn is_empty(&self) -> (r: bool)
        ensures
            r == (self@.len() == 0),
    {
        self.by_id.len() == 0
    }

    /// The reported size of all transactions in this pool.
    pub fn size(&self) -> (r: usize)
        requires
            self.wf(),
        ensures
            r == sum_sizes(self@),
    {
        self.size_of
    }

    /// Whether the transaction with the given identifier is in the pool.
    pub fn contains(&self, id: &TransactionId) -> (r: bool)
        ensures
            r == contains_id(self@, *id),
    {
        let mut i: usize = 0;
        while i < self.by_id.len()
            invariant
                i <= self.by_id@.len(),
                forall|j: int| 0 <= j < i ==> (#[trigger] self.by_id@[j]).transaction.id != *id,
            decreases self.by_id@.len() - i,
        {
            if self.by_id[i].transaction.id == *id {
                proof {
                    assert((self@[i as int]).transaction.id == *id);
                }
                return true;
            }
            i += 1;
        }
        proof {
            if contains_id(self@, *id) {
                let w = choose|w: int|
                    0 <= w < self@.len() && (#[trigger] self@[w]).transaction.id == *id;
            }
        }
        false
    }

    /// The bijection between the two internal orders holds: both sides
    /// carry the same transactions.
    pub fn assert_invariants(&self)
        requires
            self.wf(),
    {
        proof {
            self.by_id@.to_multiset_ensures();
            self.all@.to_multiset_ensures();
            assert(self.by_id@.len() == self.all@.len());
        }
    }
}

} // verus!

verus! {

impl Default for BlobTransactions {
    /// An empty pool.
    fn default() -> (r: Self)
        ensures
            r@ == Seq::<BlobTransaction>::empty(),
            r.wf(),
    {
        BlobTransactions::new()
    }
}

} // verus!
