use vstd::prelude::*;

use crate::account::{account_encoding, AccountRecord};
use crate::error::StateError;
use crate::nibbles::NibblePath;
use crate::trie::{canonical, empty, get, insert, root_hash, root_hash_of, valid_key, wf, Node};
use crate::uint::{u256_bound, U256};

verus! {

/// Wei in one ether.
pub const WEI_PER_ETHER: u128 = 1_000_000_000_000_000_000;

/// An amount of ether in wei.
pub fn eth_to_wei(eth: u64) -> (r: U256)
    ensures
        r.value() == eth * WEI_PER_ETHER,
{
    assert(eth * WEI_PER_ETHER <= 0xffff_ffff_ffff_ffff * WEI_PER_ETHER) by (nonlinear_arith)
        requires
            eth <= 0xffff_ffff_ffff_ffff,
    ;
    U256::from_u128((eth as u128) * WEI_PER_ETHER)
}

/// What a transfer charges the sender: the value and the gas at its price.
pub open spec fn transfer_cost(value: U256, gas_used: u64, gas_price: u64) -> int {
    value.value() + gas_used * gas_price
}

/// The two accounts after a transfer, and the state trie that holds them.
#[derive(Debug)]
pub struct Transition {
    pub sender: AccountRecord,
    pub receiver: AccountRecord,
    pub state: Node,
}

impl Transition {
    /// The commitment to the state after the transfer.
    pub fn state_root(&self) -> (r: Vec<u8>)
        requires
            wf(self.state),
        ensures
            r@ == root_hash_of(self.state),
    {
        root_hash(&self.state)
    }
}

/// Moves `value` from the sender to the receiver and charges the sender the
/// gas at its price. The state after is a fresh trie holding the two updated
/// records under their keys. `InsufficientBalance` when the sender cannot pay,
/// else `MalformedKey` for a key the trie does not take.
pub fn apply_transfer(
    sender_key: &NibblePath,
    sender: &AccountRecord,
    receiver_key: &NibblePath,
    receiver: &AccountRecord,
    value: U256,
    gas_used: u64,
    gas_price: u64,
) -> (r: Result<Transition, StateError>)
    requires
        sender.wf(),
        receiver.wf(),
        sender.nonce.value() + 1 < u256_bound(),
        receiver.balance.value() + value.value() < u256_bound(),
    ensures
        transfer_cost(value, gas_used, gas_price) > sender.balance.value() <==> r == Err::<
            Transition,
            StateError,
        >(StateError::InsufficientBalance),
        transfer_cost(value, gas_used, gas_price) <= sender.balance.value() ==> (r is Ok <==> (valid_key(
            sender_key@,
        ) && valid_key(receiver_key@))),
        r is Err ==> r->Err_0 == StateError::InsufficientBalance || r->Err_0
            == StateError::MalformedKey,
        r is Ok ==> ({
            let t = r->Ok_0;
            &&& t.sender.nonce.value() == sender.nonce.value() + 1
            &&& t.sender.balance.value() == sender.balance.value() - transfer_cost(
                value,
                gas_used,
                gas_price,
            )
            &&& t.sender.storage_root@ == sender.storage_root@
            &&& t.sender.code_hash@ == sender.code_hash@
            &&& t.receiver.nonce.value() == receiver.nonce.value()
            &&& t.receiver.balance.value() == receiver.balance.value() + value.value()
            &&& t.receiver.storage_root@ == receiver.storage_root@
            &&& t.receiver.code_hash@ == receiver.code_hash@
            &&& t.sender.wf() && t.receiver.wf()
            &&& wf(t.state)
            &&& canonical(t.state)
            &&& forall|q: Seq<u8>|
                #[trigger] get(t.state, q) == if q == receiver_key@ {
                    Some(account_encoding(t.receiver))
                } else if q == sender_key@ {
                    Some(account_encoding(t.sender))
                } else {
                    None
                }
        }),
{
    assert((gas_used as int) * (gas_price as int) <= 0xffff_ffff_ffff_ffff * 0xffff_ffff_ffff_ffff)
        by (nonlinear_arith)
        requires
            gas_used <= 0xffff_ffff_ffff_ffff,
            gas_price <= 0xffff_ffff_ffff_ffff,
    ;
    let fee = U256::from_u128((gas_used as u128) * (gas_price as u128));
    proof {
        sender.balance.lemma_value_bound();
    }
    let cost = match value.checked_add(&fee) {
        Some(c) => c,
        None => {
            return Err(StateError::InsufficientBalance);
        },
    };
    let left = match sender.balance.checked_sub(&cost) {
        Some(b) => b,
        None => {
            return Err(StateError::InsufficientBalance);
        },
    };
    let one = U256::from_u128(1);
    let nonce = match sender.nonce.checked_add(&one) {
        Some(n) => n,
        None => {
            return Err(StateError::InsufficientBalance);
        },
    };
    let credited = match receiver.balance.checked_add(&value) {
        Some(b) => b,
        None => {
            return Err(StateError::InsufficientBalance);
        },
    };
    let s = sender.with_balance(left).with_nonce(nonce);
    let v = receiver.with_balance(credited);
    let se = s.encode();
    let ve = v.encode();
    let ghost sev = se@;
    let ghost vev = ve@;
    let t0 = empty();
    let t1 = match insert(t0, sender_key, se) {
        Ok(t) => t,
        Err(e) => {
            return Err(e);
        },
    };
    let t2 = match insert(t1, receiver_key, ve) {
        Ok(t) => t,
        Err(e) => {
            return Err(e);
        },
    };
    assert forall|q: Seq<u8>|
        #[trigger] get(t2, q) == if q == receiver_key@ {
            Some(vev)
        } else if q == sender_key@ {
            Some(sev)
        } else {
            None
        } by {
        assert(get(t1, q) == (if q == sender_key@ {
            Some(sev)
        } else {
            get(Node::Empty, q)
        }));
    }
    Ok(Transition { sender: s, receiver: v, state: t2 })
}

} // verus!
