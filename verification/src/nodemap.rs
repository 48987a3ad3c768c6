//! Path-ordered node maps: entries keyed by nibble path, iterated in
//! strictly increasing lexicographic order, with the prefix-discarding
//! reduction that resolves overlapping per-target knowledge.

use vstd::prelude::*;
use crate::nibbles::{
    is_prefix_of, lemma_between_prefix, lemma_lex_lt_connex, lemma_lex_lt_trans, lex_le, lex_lt,
    valid_nibbles, Nibbles,
};

verus! {

/// A reference to trie content at some path: either the 32-byte hash of a
/// fully determined subtree, or a literal leaf value.
pub enum NodeRef {
    /// Hash of an untouched sibling subtree.
    Hash(Vec<u8>),
    /// Literal leaf value bytes.
    Leaf(Vec<u8>),
}

/// The mathematical value of a [`NodeRef`].
pub enum RefV {
    Hash(Seq<u8>),
    Leaf(Seq<u8>),
}

impl View for NodeRef {
    type V = RefV;

    open spec fn view(&self) -> RefV {
        match self {
            NodeRef::Hash(h) => RefV::Hash(h@),
            NodeRef::Leaf(v) => RefV::Leaf(v@),
        }
    }
}

impl NodeRef {
    /// An identical copy.
    pub fn duplicate(&self) -> (r: NodeRef)
        ensures
            r@ == self@,
    {
        match self {
            NodeRef::Hash(h) => NodeRef::Hash(crate::bytes::copy_bytes(h)),
            NodeRef::Leaf(v) => NodeRef::Leaf(crate::bytes::copy_bytes(v)),
        }
    }
}

/// One entry of a path-ordered map, as a mathematical value.
pub type EntryV = (Seq<u8>, RefV);

/// Structural validity of one entry: a valid path, and a hash reference
/// is 32 bytes at a non-root path.
pub open spec fn entry_wf(e: EntryV) -> bool {
    valid_nibbles(e.0) && match e.1 {
        RefV::Hash(h) => h.len() == 32 && e.0.len() >= 1,
        RefV::Leaf(_) => true,
    }
}

pub open spec fn entries_wf(es: Seq<EntryV>) -> bool {
    forall|i: int| 0 <= i < es.len() ==> entry_wf(#[trigger] es[i])
}

/// Paths strictly increase between adjacent entries.
pub open spec fn entries_sorted(es: Seq<EntryV>) -> bool {
    forall|i: int| 0 <= i < es.len() - 1 ==> lex_lt(#[trigger] es[i].0, es[i + 1].0)
}

/// No path is a prefix of a later path.
pub open spec fn entries_antichain(es: Seq<EntryV>) -> bool {
    forall|i: int, j: int|
        0 <= i < j < es.len() ==> !is_prefix_of(#[trigger] es[i].0, #[trigger] es[j].0)
}

/// Sortedness extends from adjacent pairs to all pairs.
pub proof fn lemma_sorted_all(es: Seq<EntryV>, i: int, j: int)
    requires
        entries_sorted(es),
        0 <= i < j < es.len(),
    ensures
        lex_lt(es[i].0, es[j].0),
    decreases j - i,
{
    if i + 1 == j {
    } else {
        lemma_sorted_all(es, i, j - 1);
        lemma_lex_lt_trans(es[i].0, es[j - 1].0, es[j].0);
    }
}

/// In a sorted sequence, a path that is a prefix of some later path is a
/// prefix of the immediately following path.
pub proof fn lemma_prefix_of_next(es: Seq<EntryV>, i: int, j: int)
    requires
        entries_sorted(es),
        0 <= i < j < es.len(),
        is_prefix_of(es[i].0, es[j].0),
    ensures
        is_prefix_of(es[i].0, es[i + 1].0),
{
    if i + 1 == j {
    } else {
        assert(is_prefix_of(es[i].0, es[i].0)) by {
            assert(es[i].0.subrange(0, es[i].0.len() as int) =~= es[i].0);
        }
        lemma_sorted_all(es, i, i + 1);
        lemma_sorted_all(es, i + 1, j);
        lemma_between_prefix(es[i].0, es[i].0, es[i + 1].0, es[j].0);
    }
}

/// The map view of a path-ordered entry sequence.
pub open spec fn lookup(es: Seq<EntryV>, k: Seq<u8>) -> Option<RefV>
    decreases es.len(),
{
    if es.len() == 0 {
        None
    } else if es[0].0 == k {
        Some(es[0].1)
    } else {
        lookup(es.skip(1), k)
    }
}

/// Insertion into a path-ordered sequence: replaces an equal path,
/// otherwise places the new entry at its ordered position.
pub open spec fn sorted_insert(es: Seq<EntryV>, key: Seq<u8>, val: RefV) -> Seq<EntryV>
    decreases es.len(),
{
    if es.len() == 0 {
        seq![(key, val)]
    } else if lex_lt(es[0].0, key) {
        seq![es[0]] + sorted_insert(es.skip(1), key, val)
    } else if es[0].0 == key {
        seq![(key, val)] + es.skip(1)
    } else {
        seq![(key, val)] + es
    }
}

/// Folding a list of insertions into a map, first to last.
pub open spec fn merge_entries(a: Seq<EntryV>, b: Seq<EntryV>) -> Seq<EntryV>
    decreases b.len(),
{
    if b.len() == 0 {
        a
    } else {
        merge_entries(sorted_insert(a, b[0].0, b[0].1), b.skip(1))
    }
}

/// The reduction rule: an entry whose path is a prefix of the next
/// entry's path is superseded by the deeper knowledge and dropped.
pub open spec fn reduce_spec(es: Seq<EntryV>) -> Seq<EntryV>
    decreases es.len(),
{
    if es.len() <= 1 {
        es
    } else if is_prefix_of(es[0].0, es[1].0) {
        reduce_spec(es.skip(1))
    } else {
        seq![es[0]] + reduce_spec(es.skip(1))
    }
}

/// The mathematical value of a list of owned entries.
pub open spec fn entries_view(v: Seq<(Nibbles, NodeRef)>) -> Seq<EntryV> {
    Seq::new(v.len(), |i: int| (v[i].0@, v[i].1@))
}

/// No path is a prefix of the immediately following path.
pub open spec fn adjacent_nonprefix(es: Seq<EntryV>) -> bool {
    forall|i: int| 0 <= i < es.len() - 1 ==> !is_prefix_of(#[trigger] es[i].0, es[i + 1].0)
}

/// For sorted entries, the adjacent check settles the whole antichain
/// property.
pub proof fn lemma_adjacent_antichain(es: Seq<EntryV>)
    requires
        entries_sorted(es),
        adjacent_nonprefix(es),
    ensures
        entries_antichain(es),
{
    assert forall|i: int, j: int| 0 <= i < j < es.len() implies !is_prefix_of(
        #[trigger] es[i].0,
        #[trigger] es[j].0,
    ) by {
        if is_prefix_of(es[i].0, es[j].0) {
            lemma_prefix_of_next(es, i, j);
        }
    }
}

/// A map of trie-content references keyed by nibble path, kept in
/// strictly increasing path order.
pub struct SortedNodes {
    entries: Vec<(Nibbles, NodeRef)>,
}

impl View for SortedNodes {
    type V = Seq<EntryV>;

    closed spec fn view(&self) -> Seq<EntryV> {
        entries_view(self.entries@)
    }
}

impl SortedNodes {
    /// Sorted and structurally valid.
    pub open spec fn wf(&self) -> bool {
        entries_sorted(self@) && entries_wf(self@)
    }

    pub fn new() -> (r: Self)
        ensures
            r@ == Seq::<EntryV>::empty(),
            r.wf(),
    {
        let r = SortedNodes { entries: Vec::new() };
        proof {
            assert(r@ =~= Seq::<EntryV>::empty());
        }
        r
    }

    pub fn len(&self) -> (r: usize)
        ensures
            r == self@.len(),
    {
        self.entries.len()
    }

    pub fn path_at(&self, i: usize) -> (r: &Nibbles)
        requires
            i < self@.len(),
        ensures
            r@ == self@[i as int].0,
    {
        &self.entries[i].0
    }

    pub fn ref_at(&self, i: usize) -> (r: &NodeRef)
        requires
            i < self@.len(),
        ensures
            r@ == self@[i as int].1,
    {
        &self.entries[i].1
    }

    /// Inserts `val` at `key`, replacing any entry already at that exact
    /// path.
    pub fn insert(&mut self, key: Nibbles, val: NodeRef)
        requires
            old(self).wf(),
            entry_wf((key@, val@)),
        ensures
            final(self)@ == sorted_insert(old(self)@, key@, val@),
            final(self).wf(),
    {
        let ghost es0 = self@;
        let mut i: usize = 0;
        while i < self.entries.len() && self.entries[i].0.lt(&key)
            invariant
                self == old(self),
                i <= self@.len(),
                forall|j: int| 0 <= j < i ==> lex_lt(#[trigger] self@[j].0, key@),
            decreases self@.len() - i,
        {
            i += 1;
        }
        let ghost p = i as int;
        if i < self.entries.len() && self.entries[i].0.equals(&key) {
            self.entries.remove(i);
            self.entries.insert(i, (key, val));
            proof {
                lemma_sorted_insert_at(es0, key@, val@, p);
                assert(self@ =~= es0.take(p) + seq![(key@, val@)] + es0.skip(p + 1));
            }
        } else {
            proof {
                if p < es0.len() {
                    if !lex_lt(key@, es0[p].0) {
                        lemma_lex_lt_connex(es0[p].0, key@);
                    }
                }
            }
            self.entries.insert(i, (key, val));
            proof {
                lemma_sorted_insert_at(es0, key@, val@, p);
                assert(self@ =~= es0.take(p) + seq![(key@, val@)] + es0.skip(p));
            }
        }
        proof {
            lemma_sorted_insert_wf(es0, key@, val@);
        }
    }

    /// Appends an entry whose path sorts after every present path.
    pub fn push_back(&mut self, key: Nibbles, val: NodeRef)
        requires
            old(self).wf(),
            entry_wf((key@, val@)),
            old(self)@.len() == 0 || lex_lt(old(self)@.last().0, key@),
        ensures
            final(self)@ == old(self)@.push((key@, val@)),
            final(self).wf(),
    {
        let ghost es0 = self@;
        self.entries.push((key, val));
        proof {
            assert(self@ =~= es0.push((key@, val@)));
            let out = self@;
            assert(entries_sorted(out)) by {
                assert forall|i: int| 0 <= i < out.len() - 1 implies lex_lt(
                    #[trigger] out[i].0,
                    out[i + 1].0,
                ) by {
                    if i < es0.len() - 1 {
                        assert(out[i] == es0[i] && out[i + 1] == es0[i + 1]);
                    } else {
                        assert(out[i] == es0.last());
                    }
                }
            }
            assert(entries_wf(out)) by {
                assert(forall|i: int| 0 <= i < es0.len() ==> out[i] == es0[i]);
            }
        }
    }

    /// Inserts every entry of `other`, first to last, later entries
    /// overwriting equal paths.
    pub fn merge_from(&mut self, other: SortedNodes)
        requires
            old(self).wf(),
            other.wf(),
        ensures
            final(self)@ == merge_entries(old(self)@, other@),
            final(self).wf(),
    {
        let ghost a0 = self@;
        let ghost b = other@;
        proof {
            assert(b.skip(0) =~= b);
        }
        let n = other.entries.len();
        let mut i: usize = 0;
        while i < n
            invariant
                i <= n,
                n == b.len(),
                other@ == b,
                other.wf(),
                self.wf(),
                merge_entries(a0, b) == merge_entries(self@, b.skip(i as int)),
            decreases n - i,
        {
            let key = other.path_at(i).duplicate();
            let val = other.ref_at(i).duplicate();
            proof {
                assert(entry_wf((key@, val@))) by {
                    assert(entry_wf(b[i as int]));
                }
                assert(b.skip(i as int)[0] == b[i as int]);
                assert(b.skip(i as int).skip(1) =~= b.skip(i + 1));
            }
            self.insert(key, val);
            i += 1;
        }
        proof {
            assert(b.skip(n as int) =~= Seq::<EntryV>::empty());
        }
    }

    /// Drops every entry whose path is a prefix of the next entry's path:
    /// the deeper entry supersedes it.
    pub fn reduce(self) -> (r: SortedNodes)
        requires
            self.wf(),
        ensures
            r@ == reduce_spec(self@),
            r.wf(),
    {
        let ghost es = self@;
        let n = self.entries.len();
        let mut out: Vec<(Nibbles, NodeRef)> = Vec::new();
        let mut i: usize = n;
        while i > 0
            invariant
                i <= n,
                n == es.len(),
                self@ == es,
                self.wf(),
                Seq::new(out@.len(), |k: int| (out@[k].0@, out@[k].1@)) =~= reduce_spec(
                    es.skip(i as int),
                ),
            decreases i,
        {
            i -= 1;
            let keep = if i + 1 < n {
                !self.entries[i + 1].0.starts_with(&self.entries[i].0)
            } else {
                true
            };
            proof {
                assert(es.skip(i as int)[0] == es[i as int]);
                if i + 1 < n {
                    assert(es.skip(i as int)[1] == es[i + 1]);
                }
                assert(es.skip(i as int).skip(1) =~= es.skip(i + 1));
            }
            if keep {
                let key = self.entries[i].0.duplicate();
                let val = self.entries[i].1.duplicate();
                out.insert(0, (key, val));
            }
        }
        proof {
            assert(es.skip(0) =~= es);
        }
        let r = SortedNodes { entries: out };
        proof {
            lemma_reduce_wf(es);
        }
        r
    }

    /// Builds a map from an already ordered entry list, checking order
    /// and structural validity at run time; returns nothing when any
    /// check fails.
    pub fn from_vec_checked(v: Vec<(Nibbles, NodeRef)>) -> (r: Option<SortedNodes>)
        ensures
            match r {
                Some(sn) => {
                    &&& sn@ == entries_view(v@)
                    &&& sn.wf()
                    &&& entries_antichain(sn@)
                },
                None => !(entries_sorted(entries_view(v@)) && entries_wf(entries_view(v@))
                    && adjacent_nonprefix(entries_view(v@))),
            },
    {
        let ghost ev = entries_view(v@);
        let n = v.len();
        let mut i: usize = 0;
        while i < n
            invariant
                i <= n,
                n == v@.len(),
                ev == entries_view(v@),
                forall|j: int| 0 <= j < i ==> entry_wf(#[trigger] ev[j]),
                forall|j: int| 0 <= j < i && j < n - 1 ==> lex_lt(#[trigger] ev[j].0, ev[j + 1].0),
                forall|j: int|
                    0 <= j < i && j < n - 1 ==> !is_prefix_of(#[trigger] ev[j].0, ev[j + 1].0),
            decreases n - i,
        {
            if !v[i].0.check_valid() {
                proof {
                    assert(!entry_wf(ev[i as int]));
                }
                return None;
            }
            match &v[i].1 {
                NodeRef::Hash(h) => {
                    if h.len() != 32 || v[i].0.len() == 0 {
                        proof {
                            assert(!entry_wf(ev[i as int]));
                        }
                        return None;
                    }
                },
                NodeRef::Leaf(_) => {},
            }
            if i + 1 < n {
                if !v[i].0.lt(&v[i + 1].0) {
                    proof {
                        assert(!lex_lt(ev[i as int].0, ev[i as int + 1].0));
                        assert(!entries_sorted(ev));
                    }
                    return None;
                }
                if v[i + 1].0.starts_with(&v[i].0) {
                    proof {
                        assert(is_prefix_of(ev[i as int].0, ev[i as int + 1].0));
                        assert(!adjacent_nonprefix(ev));
                    }
                    return None;
                }
            }
            i += 1;
        }
        let sn = SortedNodes { entries: v };
        proof {
            lemma_adjacent_antichain(ev);
        }
        Some(sn)
    }
}

/// When every path before `p` sorts below `key` and the path at `p` (if
/// any) does not, `sorted_insert` is the take/splice at `p`.
#[verifier::rlimit(40)]
proof fn lemma_sorted_insert_at(es: Seq<EntryV>, key: Seq<u8>, val: RefV, p: int)
    requires
        entries_sorted(es),
        0 <= p <= es.len(),
        forall|j: int| 0 <= j < p ==> lex_lt(#[trigger] es[j].0, key),
        p < es.len() ==> !lex_lt(es[p].0, key),
    ensures
        p < es.len() && es[p].0 == key ==> sorted_insert(es, key, val) == es.take(p) + seq![
            (key, val),
        ] + es.skip(p + 1),
        !(p < es.len() && es[p].0 == key) ==> sorted_insert(es, key, val) == es.take(p) + seq![
            (key, val),
        ] + es.skip(p),
    decreases es.len(),
{
    if es.len() == 0 {
        assert(sorted_insert(es, key, val) =~= es.take(0) + seq![(key, val)] + es.skip(0));
    } else if p == 0 {
        if es[0].0 == key {
            assert(sorted_insert(es, key, val) =~= es.take(0) + seq![(key, val)] + es.skip(1));
        } else {
            assert(sorted_insert(es, key, val) =~= es.take(0) + seq![(key, val)] + es.skip(0));
        }
    } else {
        assert(lex_lt(es[0].0, key));
        let tail = es.skip(1);
        assert(forall|i: int| 0 <= i < tail.len() ==> #[trigger] tail[i] == es[i + 1]);
        assert(entries_sorted(tail));
        assert(forall|j: int| 0 <= j < p - 1 ==> lex_lt(#[trigger] tail[j].0, key));
        lemma_sorted_insert_at(tail, key, val, p - 1);
        if p < es.len() && es[p].0 == key {
            assert(sorted_insert(es, key, val) =~= seq![es[0]] + (tail.take(p - 1) + seq![
                (key, val),
            ] + tail.skip(p)));
            assert(seq![es[0]] + (tail.take(p - 1) + seq![(key, val)] + tail.skip(p)) =~= es.take(p)
                + seq![(key, val)] + es.skip(p + 1));
        } else {
            assert(sorted_insert(es, key, val) =~= seq![es[0]] + (tail.take(p - 1) + seq![
                (key, val),
            ] + tail.skip(p - 1)));
            assert(seq![es[0]] + (tail.take(p - 1) + seq![(key, val)] + tail.skip(p - 1)) =~= es.take(
                p,
            ) + seq![(key, val)] + es.skip(p));
        }
    }
}

/// `sorted_insert` keeps the sequence sorted and well formed.
pub proof fn lemma_sorted_insert_wf(es: Seq<EntryV>, key: Seq<u8>, val: RefV)
    requires
        entries_sorted(es),
        entries_wf(es),
        entry_wf((key, val)),
    ensures
        entries_sorted(sorted_insert(es, key, val)),
        entries_wf(sorted_insert(es, key, val)),
    decreases es.len(),
{
    let out = sorted_insert(es, key, val);
    if es.len() == 0 {
    } else if lex_lt(es[0].0, key) {
        let tail = es.skip(1);
        assert(forall|i: int| 0 <= i < tail.len() ==> #[trigger] tail[i] == es[i + 1]);
        lemma_sorted_insert_wf(tail, key, val);
        let sub = sorted_insert(tail, key, val);
        assert(out =~= seq![es[0]] + sub);
        assert(sub.len() > 0);
        assert(lex_lt(es[0].0, sub[0].0)) by {
            if tail.len() == 0 {
            } else if lex_lt(tail[0].0, key) {
            } else {
            }
        }
        assert(forall|i: int| 0 <= i < sub.len() ==> #[trigger] out[i + 1] == sub[i]);
        assert(out[0] == es[0]);
        assert(entries_sorted(out));
        assert(entries_wf(out));
    } else if es[0].0 == key {
        let tail = es.skip(1);
        assert(out =~= seq![(key, val)] + tail);
        assert(forall|i: int| 0 <= i < tail.len() ==> #[trigger] out[i + 1] == es[i + 1]);
        assert(out[0].0 == es[0].0);
        assert(entries_sorted(out));
        assert(entries_wf(out));
    } else {
        assert(lex_lt(key, es[0].0)) by {
            if !lex_lt(key, es[0].0) {
                lemma_lex_lt_connex(es[0].0, key);
            }
        }
        assert(out =~= seq![(key, val)] + es);
        assert(forall|i: int| 0 <= i < es.len() ==> #[trigger] out[i + 1] == es[i]);
        assert(entries_sorted(out));
        assert(entries_wf(out));
    }
}

/// Every entry of the reduction is an entry of the input at or after the
/// corresponding position.
pub proof fn lemma_reduce_membership(es: Seq<EntryV>, k: int)
    requires
        0 <= k < reduce_spec(es).len(),
    ensures
        exists|j: int| 0 <= j < es.len() && reduce_spec(es)[k] == es[j],
    decreases es.len(),
{
    let out = reduce_spec(es);
    if es.len() <= 1 {
        assert(out[k] == es[k]);
    } else if is_prefix_of(es[0].0, es[1].0) {
        lemma_reduce_membership(es.skip(1), k);
        let j = choose|j: int|
            0 <= j < es.skip(1).len() && reduce_spec(es.skip(1))[k] == es.skip(1)[j];
        assert(es.skip(1)[j] == es[j + 1]);
        assert(out[k] == es[j + 1]);
    } else {
        if k == 0 {
            assert(out[0] == es[0]);
        } else {
            lemma_reduce_membership(es.skip(1), k - 1);
            let j = choose|j: int|
                0 <= j < es.skip(1).len() && reduce_spec(es.skip(1))[k - 1] == es.skip(1)[j];
            assert(es.skip(1)[j] == es[j + 1]);
            assert(out[k] == reduce_spec(es.skip(1))[k - 1]);
        }
    }
}

/// The reduction of a sorted, well-formed sequence is sorted, well
/// formed, and an antichain: no remaining path prefixes a later one.
pub proof fn lemma_reduce_wf(es: Seq<EntryV>)
    requires
        entries_sorted(es),
        entries_wf(es),
    ensures
        entries_sorted(reduce_spec(es)),
        entries_wf(reduce_spec(es)),
        entries_antichain(reduce_spec(es)),
    decreases es.len(),
{
    let out = reduce_spec(es);
    if es.len() <= 1 {
    } else {
        let tail = es.skip(1);
        assert(forall|i: int| 0 <= i < tail.len() ==> #[trigger] tail[i] == es[i + 1]);
        lemma_reduce_wf(tail);
        let sub = reduce_spec(tail);
        if is_prefix_of(es[0].0, es[1].0) {
        } else {
            assert(out =~= seq![es[0]] + sub);
            assert(forall|i: int| 0 <= i < sub.len() ==> #[trigger] out[i + 1] == sub[i]);
            assert(out[0] == es[0]);
            // the head is below, and no prefix of, every retained entry
            assert forall|k: int| 0 <= k < sub.len() implies lex_lt(es[0].0, sub[k].0)
                && !is_prefix_of(es[0].0, sub[k].0) by {
                lemma_reduce_membership(tail, k);
                let j = choose|j: int| 0 <= j < tail.len() && sub[k] == tail[j];
                lemma_sorted_all(es, 0, j + 1);
                if is_prefix_of(es[0].0, es[j + 1].0) {
                    lemma_prefix_of_next(es, 0, j + 1);
                }
            }
            assert(entries_sorted(out));
            assert(entries_wf(out));
            assert(entries_antichain(out)) by {
                assert(forall|i: int, j: int|
                    1 <= i < j < out.len() ==> !is_prefix_of(
                        #[trigger] out[i].0,
                        #[trigger] out[j].0,
                    )) by {
                    assert(forall|i: int, j: int|
                        0 <= i < j < sub.len() ==> !is_prefix_of(
                            #[trigger] sub[i].0,
                            #[trigger] sub[j].0,
                        ));
                }
            }
        }
    }
}

} // verus!
