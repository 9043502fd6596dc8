use evm_state::account::AccountRecord;
use evm_state::error::StateError;
use evm_state::nibbles::NibblePath;
use evm_state::transfer::{apply_transfer, eth_to_wei};
use evm_state::trie::{duplicate, empty, encode, insert, root_hash, Node};
use evm_state::uint::U256;

fn hex(s: &str) -> Vec<u8> {
    let s = s.trim_start_matches("0x");
    (0..s.len())
        .step_by(2)
        .map(|i| u8::from_str_radix(&s[i..i + 2], 16).unwrap())
        .collect()
}

fn key_of(address: &str) -> NibblePath {
    let h = keccak_hash::keccak(hex(address));
    NibblePath::from_hash(&h.0)
}

fn ascii_key(s: &str) -> NibblePath {
    let mut n = Vec::new();
    for b in s.bytes() {
        n.push(b >> 4);
        n.push(b & 15);
    }
    NibblePath::new(n).unwrap()
}

fn build(pairs: &[(&str, &str)]) -> Node {
    let mut t = empty();
    for (k, v) in pairs {
        t = insert(t, &ascii_key(k), v.as_bytes().to_vec()).unwrap();
    }
    t
}

fn u(x: u128) -> U256 {
    U256::from_u128(x)
}

fn rlp_account(nonce: u64, balance: u128, storage_root: &[u8], code_hash: &[u8]) -> Vec<u8> {
    let mut s = rlp::RlpStream::new_list(4);
    s.append(&nonce);
    s.append(&balance);
    s.append(&storage_root.to_vec());
    s.append(&code_hash.to_vec());
    s.out().to_vec()
}

#[test]
fn test_simple_transfer() {
    let sender_nibbles = key_of("2c7536e3605d9c16a7a3d7b1898e529396a65c23");
    let to_nibbles = key_of("a0a0a0a0a0a0a0a0a0a0a0a0a0a0a0a0a0a0a0a0");
    let sender_before = AccountRecord::fresh()
        .with_nonce(u(5))
        .with_balance(eth_to_wei(100_000));
    let to_before = AccountRecord::fresh();
    let value = u(100);
    let txdata_gas: u64 = 2 * 16;
    let gas_used: u64 = 21_000 + txdata_gas;
    assert_eq!(gas_used, 21032);

    let t = apply_transfer(&sender_nibbles, &sender_before, &to_nibbles, &to_before, value, gas_used, 10)
        .unwrap();
    assert_eq!(t.sender.balance, u(100_000u128 * 1_000_000_000_000_000_000 - 100 - 210320));
    assert_eq!(t.sender.nonce, u(6));
    assert_eq!(t.receiver.balance, u(100));
    assert_eq!(t.receiver.nonce, u(0));

    let mut children: Vec<Node> = (0..16).map(|_| Node::Empty).collect();
    children[sender_nibbles.get_nibble(0).unwrap() as usize] = Node::Leaf {
        nibbles: sender_nibbles.truncate_front(1).unwrap().to_vec(),
        value: t.sender.encode(),
    };
    children[to_nibbles.get_nibble(0).unwrap() as usize] = Node::Leaf {
        nibbles: to_nibbles.truncate_front(1).unwrap().to_vec(),
        value: t.receiver.encode(),
    };
    let expected = Node::Branch { children, value: None };
    assert_eq!(t.state_root(), root_hash(&expected));
}

#[test]
fn empty_trie_root_is_canonical() {
    let expected = hex("56e81f171bcc55a6ff8345e692c0f86e5b48e01b996cadc001622fb5e363b421");
    assert_eq!(root_hash(&empty()), expected);
    let t = build(&[("dog", "puppy")]);
    assert_ne!(root_hash(&t), expected);
    assert_eq!(root_hash(&empty()), expected);
    assert_eq!(encode(&empty()), vec![0x80]);
}

#[test]
fn truncate_whole_path_leaves_nothing() {
    let p = NibblePath::new(vec![1, 2, 3]).unwrap();
    let z = p.truncate_front(3).unwrap();
    assert_eq!(z.len(), 0);
    assert_eq!(z.get_nibble(0), Err(StateError::OutOfRange));
    assert!(matches!(p.truncate_front(4), Err(StateError::OutOfRange)));
    assert_eq!(p.truncate_front(1).unwrap().to_vec(), vec![2, 3]);
}

#[test]
fn transfer_beyond_balance_is_refused() {
    let a = key_of("2c7536e3605d9c16a7a3d7b1898e529396a65c23");
    let b = key_of("a0a0a0a0a0a0a0a0a0a0a0a0a0a0a0a0a0a0a0a0");
    let sender = AccountRecord::fresh().with_balance(u(210_419));
    let receiver = AccountRecord::fresh();
    let r = apply_transfer(&a, &sender, &b, &receiver, u(100), 21032, 10);
    assert!(matches!(r, Err(StateError::InsufficientBalance)));
    let r = apply_transfer(&a, &sender, &b, &receiver, u(210_420), 0, 10);
    assert!(matches!(r, Err(StateError::InsufficientBalance)));
    let huge = U256 { hi: u128::MAX, lo: u128::MAX };
    let r = apply_transfer(&a, &sender, &b, &receiver, huge, u64::MAX, u64::MAX);
    assert!(matches!(r, Err(StateError::InsufficientBalance)));
    let exact = sender.with_balance(u(210_420));
    let t = apply_transfer(&a, &exact, &b, &receiver, u(100), 21032, 10).unwrap();
    assert_eq!(t.sender.balance, u(0));
    assert_eq!(t.receiver.balance, u(100));
}

#[test]
fn transfer_with_bad_key_is_malformed() {
    let a = key_of("2c7536e3605d9c16a7a3d7b1898e529396a65c23");
    let bad = NibblePath { nibbles: vec![1, 16] };
    let sender = AccountRecord::fresh().with_balance(u(1000));
    let receiver = AccountRecord::fresh();
    let r = apply_transfer(&a, &sender, &bad, &receiver, u(1), 1, 1);
    assert!(matches!(r, Err(StateError::MalformedKey)));
}

#[test]
fn insertion_order_does_not_change_root() {
    let pairs = [("doe", "reindeer"), ("dog", "puppy"), ("dogglesworth", "cat")];
    let a = build(&pairs);
    let b = build(&[pairs[2], pairs[0], pairs[1]]);
    let c = build(&[pairs[1], pairs[2], pairs[0]]);
    let expected = hex("8aad789dff2f538bca5d8ea56e8abe10f4c7ba3a5dea95fea4cd6e7c3a1168d3");
    assert_eq!(root_hash(&a), expected);
    assert_eq!(root_hash(&b), expected);
    assert_eq!(root_hash(&c), expected);
}

#[test]
fn same_insert_into_equal_tries_gives_same_root() {
    let t1 = build(&[("doe", "reindeer")]);
    let t2 = build(&[("doe", "reindeer")]);
    let r1 = insert(t1, &ascii_key("dog"), b"puppy".to_vec()).unwrap();
    let r2 = insert(t2, &ascii_key("dog"), b"puppy".to_vec()).unwrap();
    assert_eq!(root_hash(&r1), root_hash(&r2));
}

#[test]
fn overwriting_a_key_keeps_the_last_value() {
    let t = build(&[("dog", "cat"), ("dog", "puppy")]);
    assert_eq!(root_hash(&t), root_hash(&build(&[("dog", "puppy")])));
}

#[test]
fn short_key_leaf_matches_rlp() {
    let key = NibblePath::new(vec![8, 0]).unwrap();
    let v = vec![0xf8u8; 40];
    let t = insert(empty(), &key, v.clone()).unwrap();
    let mut s = rlp::RlpStream::new_list(2);
    s.append(&vec![0x20u8, 0x80]);
    s.append(&v);
    let enc = s.out().to_vec();
    assert_eq!(encode(&t), enc);
    assert_eq!(root_hash(&t), keccak_hash::keccak(&enc).0.to_vec());
}

#[test]
fn odd_extension_and_branch_value() {
    let t = build(&[("do", "verb"), ("dog", "puppy")]);
    let mut leaf = rlp::RlpStream::new_list(2);
    leaf.append(&vec![0x37u8]);
    leaf.append(&b"puppy".to_vec());
    let leaf = leaf.out().to_vec();
    assert!(leaf.len() < 32);
    let mut branch = rlp::RlpStream::new_list(17);
    for i in 0..16 {
        if i == 6 {
            branch.append_raw(&leaf, 1);
        } else {
            branch.append_empty_data();
        }
    }
    branch.append(&b"verb".to_vec());
    let branch = branch.out().to_vec();
    let mut ext = rlp::RlpStream::new_list(2);
    ext.append(&vec![0x00u8, 0x64, 0x6f]);
    if branch.len() < 32 {
        ext.append_raw(&branch, 1);
    } else {
        ext.append(&keccak_hash::keccak(&branch).0.to_vec());
    }
    assert_eq!(encode(&t), ext.out().to_vec());
}

#[test]
fn malformed_keys_are_refused() {
    assert!(matches!(NibblePath::new(vec![3, 16]), Err(StateError::MalformedKey)));
    let bad = NibblePath { nibbles: vec![0, 200] };
    assert!(matches!(insert(empty(), &bad, vec![1]), Err(StateError::MalformedKey)));
}

#[test]
fn nibbles_of_hash() {
    let mut h = [0u8; 32];
    h[0] = 0xab;
    h[31] = 0x0f;
    let p = NibblePath::from_hash(&h);
    assert_eq!(p.len(), 64);
    assert_eq!(p.get_nibble(0), Ok(0xa));
    assert_eq!(p.get_nibble(1), Ok(0xb));
    assert_eq!(p.get_nibble(62), Ok(0));
    assert_eq!(p.get_nibble(63), Ok(0xf));
    assert_eq!(p.get_nibble(64), Err(StateError::OutOfRange));
}

#[test]
fn account_encoding_is_stable_and_matches_rlp() {
    let a = AccountRecord::fresh().with_nonce(u(5)).with_balance(eth_to_wei(100_000));
    assert_eq!(a.encode(), a.encode());
    assert_eq!(
        a.code_hash,
        hex("c5d2460186f7233c927e7db2dcc703c0e500b653ca82273b7bfad8045d85a470")
    );
    assert_eq!(
        a.encode(),
        rlp_account(5, 100_000u128 * 1_000_000_000_000_000_000, &a.storage_root, &a.code_hash)
    );
    let z = AccountRecord::fresh();
    assert_eq!(z.encode(), rlp_account(0, 0, &z.storage_root, &z.code_hash));
}

#[test]
fn wei_conversion() {
    assert_eq!(eth_to_wei(0), u(0));
    assert_eq!(eth_to_wei(1), u(1_000_000_000_000_000_000));
    assert_eq!(eth_to_wei(100_000), u(100_000_000_000_000_000_000_000));
}

#[test]
fn wide_integers_carry_and_borrow() {
    let max_lo = U256 { hi: 0, lo: u128::MAX };
    assert_eq!(max_lo.checked_add(&u(1)), Some(U256 { hi: 1, lo: 0 }));
    assert_eq!(U256 { hi: 1, lo: 0 }.checked_sub(&u(1)), Some(max_lo));
    let top = U256 { hi: u128::MAX, lo: u128::MAX };
    assert_eq!(top.checked_add(&u(1)), None);
    assert_eq!(u(3).checked_sub(&u(4)), None);
    assert_eq!(u(0).to_be_bytes(), Vec::<u8>::new());
    assert_eq!(u(0x0102).to_be_bytes(), vec![1, 2]);
    let mut all = vec![0xffu8; 32];
    assert_eq!(top.to_be_bytes(), all);
    all.truncate(17);
    all[0] = 1;
    for b in all.iter_mut().skip(1) {
        *b = 0;
    }
    assert_eq!(U256 { hi: 1, lo: 0 }.to_be_bytes(), all);
}

#[test]
fn large_balance_encodes_with_all_its_bytes() {
    let big = U256 { hi: 1, lo: 5 };
    let a = AccountRecord::fresh().with_balance(big);
    let mut s = rlp::RlpStream::new_list(4);
    s.append_empty_data();
    let mut bal = vec![0u8; 17];
    bal[0] = 1;
    bal[16] = 5;
    s.append(&bal);
    s.append(&a.storage_root);
    s.append(&a.code_hash);
    assert_eq!(a.encode(), s.out().to_vec());
}


#[test]
fn earlier_version_keeps_its_root() {
    let before = build(&[("doe", "reindeer")]);
    let root_before = root_hash(&before);
    let kept = duplicate(&before);
    let after = insert(before, &ascii_key("dog"), b"puppy".to_vec()).unwrap();
    assert_eq!(root_hash(&kept), root_before);
    assert_ne!(root_hash(&after), root_before);
    assert_eq!(encode(&duplicate(&after)), encode(&after));
}
