use vstd::prelude::*;

use crate::encoding::{
    be_bytes, keccak256, keccak_of, lemma_rlp_len, rlp_encode_list, rlp_encode_string, rlp_list,
    rlp_string,
};
use crate::trie::{empty, root_hash, root_hash_of, Node};
use crate::uint::U256;

verus! {

/// The ledger state of one account.
#[derive(Debug, Clone)]
pub struct AccountRecord {
    pub nonce: U256,
    pub balance: U256,
    /// Commitment to the account's own storage trie.
    pub storage_root: Vec<u8>,
    /// Digest of the account's code; of no bytes for a plain account.
    pub code_hash: Vec<u8>,
}

/// The serialized record: nonce, balance, storage root and code hash, in that order.
pub open spec fn account_encoding(a: AccountRecord) -> Seq<u8> {
    rlp_list(
        rlp_string(be_bytes(a.nonce.value())) + rlp_string(be_bytes(a.balance.value())) + rlp_string(
            a.storage_root@,
        ) + rlp_string(a.code_hash@),
    )
}

impl AccountRecord {
    /// The two hashes are 32 bytes long.
    pub open spec fn wf(&self) -> bool {
        self.storage_root@.len() == 32 && self.code_hash@.len() == 32
    }

    /// The account that has never been touched: no nonce, no balance, an
    /// empty storage trie and no code.
    pub fn fresh() -> (r: AccountRecord)
        ensures
            r.wf(),
            r.nonce.value() == 0,
            r.balance.value() == 0,
            r.storage_root@ == root_hash_of(Node::Empty),
            r.code_hash@ == keccak_of(Seq::empty()),
    {
        let e = empty();
        let storage_root = root_hash(&e);
        let no_code: Vec<u8> = Vec::new();
        let code_hash = keccak256(&no_code);
        assert(no_code@ =~= Seq::<u8>::empty());
        AccountRecord { nonce: U256::zero(), balance: U256::zero(), storage_root, code_hash }
    }

    /// A copy with the balance replaced.
    pub fn with_balance(&self, balance: U256) -> (r: AccountRecord)
        ensures
            r.balance == balance,
            r.nonce == self.nonce,
            r.storage_root@ == self.storage_root@,
            r.code_hash@ == self.code_hash@,
    {
        AccountRecord {
            nonce: self.nonce,
            balance,
            storage_root: self.storage_root.clone(),
            code_hash: self.code_hash.clone(),
        }
    }

    /// A copy with the nonce replaced.
    pub fn with_nonce(&self, nonce: U256) -> (r: AccountRecord)
        ensures
            r.nonce == nonce,
            r.balance == self.balance,
            r.storage_root@ == self.storage_root@,
            r.code_hash@ == self.code_hash@,
    {
        AccountRecord {
            nonce,
            balance: self.balance,
            storage_root: self.storage_root.clone(),
            code_hash: self.code_hash.clone(),
        }
    }

    /// The serialized record.
    pub fn encode(&self) -> (r: Vec<u8>)
        requires
            self.wf(),
        ensures
            r@ == account_encoding(*self),
            r@.len() <= 140,
    {
        let nb = self.nonce.to_be_bytes();
        let bb = self.balance.to_be_bytes();
        let mut payload = rlp_encode_string(&nb);
        let mut b = rlp_encode_string(&bb);
        let mut s = rlp_encode_string(&self.storage_root);
        let mut c = rlp_encode_string(&self.code_hash);
        proof {
            lemma_rlp_len(nb@);
            lemma_rlp_len(bb@);
            lemma_rlp_len(self.storage_root@);
            lemma_rlp_len(self.code_hash@);
        }
        payload.append(&mut b);
        payload.append(&mut s);
        payload.append(&mut c);
        proof {
            lemma_rlp_len(payload@);
        }
        rlp_encode_list(&payload)
    }
}

/// Records with equal fields encode to the same bytes.
pub proof fn lemma_encoding_determined(a: AccountRecord, b: AccountRecord)
    requires
        a.nonce.value() == b.nonce.value(),
        a.balance.value() == b.balance.value(),
        a.storage_root@ == b.storage_root@,
        a.code_hash@ == b.code_hash@,
    ensures
        account_encoding(a) == account_encoding(b),
{
}

} // verus!
