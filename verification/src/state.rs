//! The post-state input: per-account records and storage changes keyed by
//! hashed 32-byte keys, and the canonical account leaf encoding.

use vstd::prelude::*;
use crate::bytes::{push_all, sub_bytes};
use crate::codec::{be_bytes, be_bytes_exec, rlp_list, rlp_list_exec, rlp_str, rlp_str_exec};

verus! {

/// An account record; absence of a record signals deletion.
pub struct Account {
    pub nonce: u64,
    /// Balance as 32 big-endian bytes.
    pub balance: Vec<u8>,
    /// Hash of the account's code.
    pub code_hash: Vec<u8>,
}

impl Account {
    pub open spec fn wf(&self) -> bool {
        self.balance@.len() == 32 && self.code_hash@.len() == 32
    }
}

/// Storage changes of one account: hashed slot key to 32-byte big-endian
/// value; a zero value signals slot deletion.
pub struct HashedStorage {
    pub storage: Vec<(Vec<u8>, Vec<u8>)>,
}

impl HashedStorage {
    pub open spec fn wf(&self) -> bool {
        forall|i: int|
            0 <= i < self.storage@.len() ==> (#[trigger] self.storage@[i]).0@.len() == 32
                && self.storage@[i].1@.len() == 32
    }
}

/// The input of a witness computation: changed accounts (`None` marks
/// deletion) and changed storage slots, keyed by hashed address.
pub struct HashedPostState {
    pub accounts: Vec<(Vec<u8>, Option<Account>)>,
    pub storages: Vec<(Vec<u8>, HashedStorage)>,
}

impl HashedPostState {
    /// Keys are 32 bytes and unique (the maps model hash maps), records
    /// and storage entries well formed.
    pub open spec fn wf(&self) -> bool {
        &&& forall|i: int|
            0 <= i < self.accounts@.len() ==> (#[trigger] self.accounts@[i]).0@.len() == 32
                && match self.accounts@[i].1 {
                Some(a) => a.wf(),
                None => true,
            }
        &&& forall|i: int|
            0 <= i < self.storages@.len() ==> (#[trigger] self.storages@[i]).0@.len() == 32
                && self.storages@[i].1.wf()
        &&& forall|i: int, j: int|
            0 <= i < j < self.accounts@.len() ==> (#[trigger] self.accounts@[i]).0@ != (
            #[trigger] self.accounts@[j]).0@
        &&& forall|i: int, j: int|
            0 <= i < j < self.storages@.len() ==> (#[trigger] self.storages@[i]).0@ != (
            #[trigger] self.storages@[j]).0@
    }
}

/// The changed storage slots recorded for `addr`, in order; empty when
/// the post-state holds no storage entry for it.
pub open spec fn slots_for(state: HashedPostState, addr: Seq<u8>) -> Seq<Seq<u8>> {
    if exists|j: int| 0 <= j < state.storages@.len() && (#[trigger] state.storages@[j]).0@ == addr {
        let j = choose|j: int|
            0 <= j < state.storages@.len() && (#[trigger] state.storages@[j]).0@ == addr;
        Seq::new(
            state.storages@[j].1.storage@.len(),
            |k: int| state.storages@[j].1.storage@[k].0@,
        )
    } else {
        Seq::empty()
    }
}

/// The full target set of a witness computation: every changed account,
/// in post-state order, paired with its changed storage slots.
pub open spec fn proof_targets(state: HashedPostState) -> Seq<(Seq<u8>, Seq<Seq<u8>>)> {
    Seq::new(
        state.accounts@.len(),
        |i: int| (state.accounts@[i].0@, slots_for(state, state.accounts@[i].0@)),
    )
}

/// The mathematical value of an assembled target list.
pub open spec fn targets_view(v: Seq<(Vec<u8>, Vec<Vec<u8>>)>) -> Seq<(Seq<u8>, Seq<Seq<u8>>)> {
    Seq::new(v.len(), |i: int| ((v[i].0)@, Seq::new(v[i].1@.len(), |j: int| v[i].1@[j]@)))
}

/// Big-endian bytes with leading zeros removed: the canonical integer
/// payload.
pub open spec fn trim_zeros(s: Seq<u8>) -> Seq<u8>
    decreases s.len(),
{
    if s.len() > 0 && s[0] == 0 {
        trim_zeros(s.skip(1))
    } else {
        s
    }
}

proof fn lemma_trim_zeros_at(s: Seq<u8>, i: int)
    requires
        0 <= i <= s.len(),
        forall|j: int| 0 <= j < i ==> s[j] == 0,
        i < s.len() ==> s[i] != 0,
    ensures
        trim_zeros(s) == s.skip(i),
    decreases i,
{
    if i == 0 {
        assert(s.skip(0) =~= s);
    } else {
        assert(s[0] == 0);
        let t = s.skip(1);
        assert(forall|j: int| 0 <= j < t.len() ==> t[j] == s[j + 1]);
        lemma_trim_zeros_at(t, i - 1);
        assert(t.skip(i - 1) =~= s.skip(i));
    }
}

/// Strips leading zero bytes.
pub fn trim_zeros_exec(s: &Vec<u8>) -> (r: Vec<u8>)
    ensures
        r@ == trim_zeros(s@),
{
    let mut i: usize = 0;
    while i < s.len() && s[i] == 0
        invariant
            i <= s@.len(),
            forall|j: int| 0 <= j < i ==> s@[j] == 0,
        decreases s@.len() - i,
    {
        i += 1;
    }
    proof {
        lemma_trim_zeros_at(s@, i as int);
    }
    sub_bytes(s, i, s.len())
}

/// Whether a 32-byte big-endian value is zero.
pub fn is_zero_value(s: &Vec<u8>) -> (r: bool)
    ensures
        r == (trim_zeros(s@).len() == 0),
{
    let mut i: usize = 0;
    while i < s.len() && s[i] == 0
        invariant
            i <= s@.len(),
            forall|j: int| 0 <= j < i ==> s@[j] == 0,
        decreases s@.len() - i,
    {
        i += 1;
    }
    proof {
        lemma_trim_zeros_at(s@, i as int);
    }
    i == s.len()
}

/// The canonical leaf value of a storage slot: its value as a
/// minimal-length integer encoding.
pub open spec fn storage_value_rlp(value: Seq<u8>) -> Seq<u8> {
    rlp_str(trim_zeros(value))
}

/// Encodes a storage slot value.
pub fn encode_storage_value(value: &Vec<u8>) -> (r: Vec<u8>)
    ensures
        r@ == storage_value_rlp(value@),
{
    let t = trim_zeros_exec(value);
    rlp_str_exec(&t)
}

/// The canonical account leaf value: the record's nonce, balance,
/// storage root and code hash in their standard list encoding.
pub open spec fn account_rlp(
    nonce: u64,
    balance: Seq<u8>,
    storage_root: Seq<u8>,
    code_hash: Seq<u8>,
) -> Seq<u8> {
    rlp_list(
        rlp_str(be_bytes(nonce as nat)) + rlp_str(trim_zeros(balance)) + rlp_str(storage_root)
            + rlp_str(code_hash),
    )
}

/// Encodes the account leaf value for the given record and resolved
/// storage root.
pub fn encode_account(account: &Account, storage_root: &Vec<u8>) -> (r: Vec<u8>)
    ensures
        r@ == account_rlp(account.nonce, account.balance@, storage_root@, account.code_hash@),
{
    let nb = be_bytes_exec(account.nonce);
    let mut payload = rlp_str_exec(&nb);
    let tb = trim_zeros_exec(&account.balance);
    let benc = rlp_str_exec(&tb);
    push_all(&mut payload, &benc);
    let senc = rlp_str_exec(storage_root);
    push_all(&mut payload, &senc);
    let cenc = rlp_str_exec(&account.code_hash);
    push_all(&mut payload, &cenc);
    rlp_list_exec(&payload)
}

/// The default (empty) account record: zero nonce, zero balance, and the
/// hash of empty code.
pub fn default_account() -> (r: Account)
    ensures
        r.wf(),
        r.nonce == 0,
        trim_zeros(r.balance@).len() == 0,
        r.code_hash@ == crate::hash::keccak_spec(Seq::<u8>::empty()),
{
    let mut balance: Vec<u8> = Vec::new();
    let mut i: usize = 0;
    while i < 32
        invariant
            i <= 32,
            balance@.len() == i,
            forall|j: int| 0 <= j < i ==> balance@[j] == 0,
        decreases 32 - i,
    {
        balance.push(0);
        i += 1;
    }
    proof {
        lemma_trim_zeros_at(balance@, 32);
        assert(balance@.skip(32).len() == 0);
    }
    let empty: Vec<u8> = Vec::new();
    let code_hash = crate::hash::keccak256(&empty);
    proof {
        assert(empty@ =~= Seq::<u8>::empty());
    }
    Account { nonce: 0, balance, code_hash }
}

} // verus!
