use vstd::prelude::*;

use crate::encoding::{
    keccak256, keccak_of, lemma_rlp_len, rlp_encode_list, rlp_encode_string, rlp_list, rlp_string,
};
use crate::canonical::{lemma_child_refs_eq, lemma_has_key};
use crate::error::StateError;
use crate::nibbles::{is_nibbles, NibblePath};

verus! {

/// Longest key path a trie accepts.
pub const MAX_KEY_NIBBLES: usize = 0x10000;

/// Longest value a trie accepts.
pub const MAX_VALUE_BYTES: usize = 0x100_0000;

/// A node of a Merkle-Patricia trie. A leaf and an extension hold the part
/// of the key that remains below their position.
#[derive(Debug)]
pub enum Node {
    Empty,
    Leaf { nibbles: Vec<u8>, value: Vec<u8> },
    Extension { nibbles: Vec<u8>, child: Box<Node> },
    Branch { children: Vec<Node>, value: Option<Vec<u8>> },
}

pub open spec fn opt_view(o: Option<Vec<u8>>) -> Option<Seq<u8>> {
    match o {
        Some(v) => Some(v@),
        None => None,
    }
}

/// `q` starts with `p`.
pub open spec fn has_prefix(q: Seq<u8>, p: Seq<u8>) -> bool {
    p.len() <= q.len() && q.take(p.len() as int) == p
}

/// The value stored under key `q` below node `n`.
pub open spec fn get(n: Node, q: Seq<u8>) -> Option<Seq<u8>>
    decreases n,
{
    match n {
        Node::Empty => None,
        Node::Leaf { nibbles, value } => if q == nibbles@ {
            Some(value@)
        } else {
            None
        },
        Node::Extension { nibbles, child } => if has_prefix(q, nibbles@) {
            get(*child, q.skip(nibbles@.len() as int))
        } else {
            None
        },
        Node::Branch { children, value } => if q.len() == 0 {
            opt_view(value)
        } else if q[0] < children@.len() {
            get(children@[q[0] as int], q.skip(1))
        } else {
            None
        },
    }
}

/// Branches have sixteen children, paths hold nibbles, extensions are not
/// empty, and keys and values stay within the sizes the encoding takes.
pub open spec fn wf(n: Node) -> bool
    decreases n,
{
    match n {
        Node::Empty => true,
        Node::Leaf { nibbles, value } => is_nibbles(nibbles@) && nibbles@.len() <= MAX_KEY_NIBBLES
            && value@.len() <= MAX_VALUE_BYTES,
        Node::Extension { nibbles, child } => 0 < nibbles@.len() <= MAX_KEY_NIBBLES && is_nibbles(
            nibbles@,
        ) && wf(*child),
        Node::Branch { children, value } => children@.len() == 16 && (forall|i: int|
            0 <= i < 16 ==> wf(#[trigger] children@[i])) && (value matches Some(v) ==> v@.len()
            <= MAX_VALUE_BYTES),
    }
}

/// Two stored keys that part at the first nibble, or one ends here and one goes on.
pub open spec fn spread(n: Node) -> bool {
    exists|q1: Seq<u8>, q2: Seq<u8>|
        #![trigger get(n, q1), get(n, q2)]
        get(n, q1) is Some && get(n, q2) is Some && q2.len() > 0 && (q1.len() == 0 || q1[0]
            != q2[0])
}

/// The compact shape: a branch holds at least two entries that it tells
/// apart, and an extension leads to a branch.
pub open spec fn canonical(n: Node) -> bool
    decreases n,
{
    match n {
        Node::Empty => true,
        Node::Leaf { .. } => true,
        Node::Extension { nibbles, child } => (*child is Branch) && canonical(*child),
        Node::Branch { children, value } => (forall|i: int|
            0 <= i < children@.len() ==> canonical(#[trigger] children@[i])) && spread(n),
    }
}

/// A branch whose children are all canonical.
pub open spec fn children_canonical(b: Node) -> bool {
    match b {
        Node::Branch { children, .. } => forall|i: int|
            0 <= i < children@.len() ==> canonical(#[trigger] children@[i]),
        _ => false,
    }
}

/// The slot of a branch where a key `r` would be stored holds nothing.
pub open spec fn slot_free(b: Node, r: Seq<u8>) -> bool {
    match b {
        Node::Branch { children, value } => if r.len() == 0 {
            value is None
        } else {
            r[0] < children@.len() && children@[r[0] as int] is Empty
        },
        _ => false,
    }
}

proof fn lemma_split(q: Seq<u8>, x: Seq<u8>, c: int)
    requires
        0 <= c <= x.len(),
    ensures
        (q == x) <==> (has_prefix(q, x.take(c)) && q.skip(c) == x.skip(c)),
{
    if has_prefix(q, x.take(c)) && q.skip(c) == x.skip(c) {
        assert(q.take(c).len() == c);
        assert(q.skip(c).len() == x.skip(c).len());
        assert(q.len() == x.len());
        assert forall|i: int| 0 <= i < q.len() implies q[i] == x[i] by {
            if i < c {
                assert(q.take(c)[i] == x.take(c)[i]);
            } else {
                assert(q.skip(c)[i - c] == q[i]);
                assert(q.skip(c)[i - c] == x.skip(c)[i - c]);
            }
        }
        assert(q =~= x);
    }
}

proof fn lemma_ext_split(q: Seq<u8>, p: Seq<u8>, c: int)
    requires
        0 <= c < p.len(),
    ensures
        ({
            let s = q.skip(c);
            (has_prefix(q, p.take(c)) && s.len() > 0 && s[0] == p[c] && has_prefix(
                s.skip(1),
                p.skip(c + 1),
            )) <==> has_prefix(q, p)
        }),
        has_prefix(q, p) ==> q.skip(c).skip(1).skip(p.len() - c - 1) == q.skip(p.len() as int),
{
    let s = q.skip(c);
    if has_prefix(q, p.take(c)) && s.len() > 0 && s[0] == p[c] && has_prefix(
        s.skip(1),
        p.skip(c + 1),
    ) {
        assert forall|i: int| 0 <= i < p.len() implies q.take(p.len() as int)[i] == p[i] by {
            if i < c {
                assert(q.take(c)[i] == p.take(c)[i]);
            } else if i > c {
                assert(s.skip(1).take(p.skip(c + 1).len() as int)[i - c - 1] == p.skip(c + 1)[i
                    - c - 1]);
            }
        }
        assert(q.take(p.len() as int) =~= p);
    }
    if has_prefix(q, p) {
        assert(q.take(p.len() as int)[c] == p[c]);
        assert(q.take(c) =~= p.take(c)) by {
            assert forall|i: int| 0 <= i < c implies q.take(c)[i] == p.take(c)[i] by {
                assert(q.take(p.len() as int)[i] == p[i]);
            }
        }
        let t = s.skip(1).take(p.len() - c - 1);
        let pc = p.skip(c + 1);
        assert forall|i: int| 0 <= i < pc.len() implies #[trigger] t[i] == pc[i] by {
            assert(q.take(p.len() as int)[i + c + 1] == p[i + c + 1]);
        }
        assert(t =~= pc);
        assert(q.skip(c).skip(1).skip(p.len() - c - 1) =~= q.skip(p.len() as int));
    }
}

fn slice(v: &Vec<u8>, from: usize, to: usize) -> (r: Vec<u8>)
    requires
        from <= to <= v@.len(),
    ensures
        r@ == v@.subrange(from as int, to as int),
{
    let mut out: Vec<u8> = Vec::new();
    let mut i: usize = from;
    while i < to
        invariant
            from <= i <= to <= v@.len(),
            out@ =~= v@.subrange(from as int, i as int),
        decreases to - i,
    {
        out.push(v[i]);
        i = i + 1;
    }
    out
}

/// Length of the longest common prefix of `p` and the key from `pos` on.
fn common_prefix(p: &Vec<u8>, key: &Vec<u8>, pos: usize) -> (c: usize)
    requires
        pos <= key@.len(),
    ensures
        c <= p@.len(),
        c <= key@.len() - pos,
        p@.take(c as int) == key@.skip(pos as int).take(c as int),
        c < p@.len() && c < key@.len() - pos ==> p@[c as int] != key@[pos + c],
{
    let mut c: usize = 0;
    while c < p.len() && c < key.len() - pos && p[c] == key[pos + c]
        invariant
            c <= p@.len(),
            pos + c <= key@.len(),
            forall|j: int| 0 <= j < c ==> p@[j] == key@[pos + j],
        decreases p@.len() - c,
    {
        c = c + 1;
    }
    assert(p@.take(c as int) =~= key@.skip(pos as int).take(c as int));
    c
}

fn empty_branch() -> (r: Node)
    ensures
        r is Branch,
        wf(r),
        forall|q: Seq<u8>| #[trigger] get(r, q) == None::<Seq<u8>>,
        forall|q: Seq<u8>| (q.len() == 0 || q[0] < 16) ==> #[trigger] slot_free(r, q),
        children_canonical(r),
{
    let mut children: Vec<Node> = Vec::new();
    let mut i: usize = 0;
    while i < 16
        invariant
            i <= 16,
            children@.len() == i,
            forall|j: int| 0 <= j < i ==> #[trigger] children@[j] is Empty,
        decreases 16 - i,
    {
        children.push(Node::Empty);
        i = i + 1;
    }
    let r = Node::Branch { children, value: None };
    assert forall|q: Seq<u8>| #[trigger] get(r, q) == None::<Seq<u8>> by {
        if q.len() > 0 && q[0] < 16 {
            assert(children@[q[0] as int] is Empty);
            assert(get(children@[q[0] as int], q.skip(1)) == None::<Seq<u8>>);
        }
    }
    assert forall|j: int| 0 <= j < 16 implies wf(#[trigger] children@[j]) by {
        assert(children@[j] is Empty);
    }
    assert forall|j: int| 0 <= j < children@.len() implies canonical(#[trigger] children@[j]) by {
        assert(children@[j] is Empty);
    }
    r
}

/// Stores `value` under the key `key[pos..]` in a free slot of a branch.
fn put_leaf(b: Node, key: &Vec<u8>, pos: usize, value: Vec<u8>) -> (r: Node)
    requires
        wf(b),
        pos <= key@.len() <= MAX_KEY_NIBBLES,
        is_nibbles(key@),
        value@.len() <= MAX_VALUE_BYTES,
        slot_free(b, key@.skip(pos as int)),
    ensures
        r is Branch,
        wf(r),
        forall|q: Seq<u8>|
            #[trigger] get(r, q) == if q == key@.skip(pos as int) {
                Some(value@)
            } else {
                get(b, q)
            },
        forall|r2: Seq<u8>|
            #[trigger] slot_free(b, r2) && !(r2.len() == 0 && pos == key@.len()) && !(r2.len() > 0
                && pos < key@.len() && r2[0] == key@[pos as int]) ==> slot_free(r, r2),
        children_canonical(b) ==> children_canonical(r),
{
    let ghost rk = key@.skip(pos as int);
    let ghost vv = value@;
    match b {
        Node::Branch { mut children, value: bv } => {
            if pos == key.len() {
                let r = Node::Branch { children, value: Some(value) };
                assert forall|q: Seq<u8>|
                    #[trigger] get(r, q) == if q == rk {
                        Some(vv)
                    } else {
                        get(b, q)
                    } by {
                    if q.len() == 0 {
                        assert(q =~= rk);
                    }
                }
                r
            } else {
                let i = key[pos] as usize;
                let ghost old_children = children@;
                let rest = slice(key, pos + 1, key.len());
                let leaf = Node::Leaf { nibbles: rest, value };
                let _ = children.remove(i);
                children.insert(i, leaf);
                assert(children@ =~= old_children.update(i as int, leaf));
                let r = Node::Branch { children, value: bv };
                assert(rest@ =~= rk.skip(1));
                assert forall|q: Seq<u8>|
                    #[trigger] get(r, q) == if q == rk {
                        Some(vv)
                    } else {
                        get(b, q)
                    } by {
                    lemma_split(q, rk, 1);
                    assert(rk[0] == i);
                    if q.len() > 0 {
                        if q[0] == i {
                            assert(q.take(1) =~= rk.take(1));
                            assert(old_children[i as int] is Empty);
                            assert(get(b, q) == get(old_children[i as int], q.skip(1)));
                            assert(get(r, q) == get(leaf, q.skip(1)));
                        } else {
                            assert(q.take(1)[0] != rk.take(1)[0]);
                            assert(q != rk);
                            if q[0] < 16 {
                                assert(children@[q[0] as int] == old_children[q[0] as int]);
                            }
                        }
                    } else {
                        assert(q.len() != rk.len());
                    }
                }
                assert forall|j: int| 0 <= j < 16 implies wf(#[trigger] children@[j]) by {
                    if j != i {
                        assert(children@[j] == old_children[j]);
                    }
                }
                proof {
                    if children_canonical(b) {
                        assert forall|j: int| 0 <= j < children@.len() implies canonical(
                            #[trigger] children@[j],
                        ) by {
                            if j != i {
                                assert(children@[j] == old_children[j]);
                            }
                        }
                    }
                }
                r
            }
        },
        _ => { proof { assert(false); } Node::Empty },
    }
}

/// Places `child` in the free slot `nib` of a branch.
fn put_node(b: Node, nib: u8, child: Node) -> (r: Node)
    requires
        wf(b),
        wf(child),
        nib < 16,
        slot_free(b, seq![nib]),
    ensures
        r is Branch,
        wf(r),
        forall|q: Seq<u8>|
            #[trigger] get(r, q) == if q.len() > 0 && q[0] == nib {
                get(child, q.skip(1))
            } else {
                get(b, q)
            },
        forall|r2: Seq<u8>|
            #[trigger] slot_free(b, r2) && !(r2.len() > 0 && r2[0] == nib) ==> slot_free(r, r2),
        children_canonical(b) && canonical(child) ==> children_canonical(r),
{
    match b {
        Node::Branch { mut children, value: bv } => {
            let ghost old_children = children@;
            let ghost ch = child;
            let i = nib as usize;
            assert(seq![nib][0] == nib);
            let _ = children.remove(i);
            children.insert(i, child);
            assert(children@ =~= old_children.update(i as int, ch));
            let r = Node::Branch { children, value: bv };
            assert forall|j: int| 0 <= j < 16 implies wf(#[trigger] children@[j]) by {
                if j != i {
                    assert(children@[j] == old_children[j]);
                }
            }
            proof {
                if children_canonical(b) && canonical(ch) {
                    assert forall|j: int| 0 <= j < children@.len() implies canonical(
                        #[trigger] children@[j],
                    ) by {
                        if j != i {
                            assert(children@[j] == old_children[j]);
                        }
                    }
                }
            }
            r
        },
        _ => { proof { assert(false); } Node::Empty },
    }
}

/// `child` below the path `path`; the child itself where the path is empty.
fn make_ext(path: Vec<u8>, child: Node) -> (r: Node)
    requires
        wf(child),
        is_nibbles(path@),
        path@.len() <= MAX_KEY_NIBBLES,
    ensures
        wf(r),
        forall|q: Seq<u8>|
            #[trigger] get(r, q) == if has_prefix(q, path@) {
                get(child, q.skip(path@.len() as int))
            } else {
                None
            },
        child is Branch && canonical(child) ==> canonical(r) && (r is Branch || r is Extension),
{
    if path.len() == 0 {
        assert forall|q: Seq<u8>|
            #[trigger] get(child, q) == if has_prefix(q, path@) {
                get(child, q.skip(path@.len() as int))
            } else {
                None
            } by {
            assert(q.take(0) =~= path@);
            assert(q.skip(0) =~= q);
        }
        child
    } else {
        Node::Extension { nibbles: path, child: Box::new(child) }
    }
}

/// The node with `value` stored under the key `key[pos..]`.
fn insert_at(n: Node, key: &Vec<u8>, pos: usize, value: Vec<u8>) -> (r: Node)
    requires
        wf(n),
        pos <= key@.len() <= MAX_KEY_NIBBLES,
        is_nibbles(key@),
        value@.len() <= MAX_VALUE_BYTES,
    ensures
        wf(r),
        forall|q: Seq<u8>|
            #[trigger] get(r, q) == if q == key@.skip(pos as int) {
                Some(value@)
            } else {
                get(n, q)
            },
        canonical(n) ==> canonical(r),
        n is Branch ==> r is Branch,
    decreases key@.len() - pos, n,
{
    let ghost rk = key@.skip(pos as int);
    let ghost vv = value@;
    match n {
        Node::Empty => {
            let rest = slice(key, pos, key.len());
            assert(rest@ =~= rk);
            Node::Leaf { nibbles: rest, value }
        },
        Node::Leaf { nibbles: p, value: w } => {
            let ghost pv = p@;
            let ghost wv = w@;
            let c = common_prefix(&p, key, pos);
            if c == p.len() && c == key.len() - pos {
                assert(pv =~= pv.take(c as int));
                assert(rk =~= rk.take(c as int));
                Node::Leaf { nibbles: p, value }
            } else {
                let b0 = empty_branch();
                let b1 = put_leaf(b0, &p, c, w);
                assert(pv.skip(c as int).len() > 0 ==> pv.skip(c as int)[0] == pv[c as int]);
                let ghost r2 = key@.skip(pos + c);
                assert(r2.len() > 0 ==> r2[0] == key@[pos + c]);
                assert(slot_free(b0, r2));
                let b2 = put_leaf(b1, key, pos + c, value);
                assert(key@.skip(pos + c) =~= rk.skip(c as int));
                proof {
                    let a1 = pv.skip(c as int);
                    let a2 = rk.skip(c as int);
                    assert(get(b2, a2) == Some(vv));
                    assert(get(b2, a1) is Some);
                    if a2.len() > 0 {
                        assert(a2[0] == key@[pos + c]);
                        assert(a1.len() == 0 || a1[0] == pv[c as int]);
                        assert(get(b2, a1) is Some && get(b2, a2) is Some);
                    } else {
                        assert(a1.len() > 0);
                        assert(get(b2, a2) is Some && get(b2, a1) is Some);
                    }
                    assert(spread(b2));
                    assert(canonical(b2));
                }
                let prefix = slice(&p, 0, c);
                let r = make_ext(prefix, b2);
                assert forall|q: Seq<u8>|
                    #[trigger] get(r, q) == if q == rk {
                        Some(vv)
                    } else {
                        get(n, q)
                    } by {
                    lemma_split(q, rk, c as int);
                    lemma_split(q, pv, c as int);
                    assert(prefix@ =~= pv.take(c as int));
                    assert(rk.take(c as int) =~= pv.take(c as int));
                }
                r
            }
        },
        Node::Extension { nibbles: p, child } => {
            let ghost pv = p@;
            let c = common_prefix(&p, key, pos);
            if c == p.len() {
                let ghost old_child = *child;
                let new_child = insert_at(*child, key, pos + c, value);
                let ghost ncv = new_child;
                proof {
                    if canonical(n) {
                        assert(old_child is Branch && canonical(old_child));
                        assert(ncv is Branch && canonical(ncv));
                    }
                }
                let r = Node::Extension { nibbles: p, child: Box::new(new_child) };
                assert(key@.skip(pos + c) =~= rk.skip(c as int));
                assert forall|q: Seq<u8>|
                    #[trigger] get(r, q) == if q == rk {
                        Some(vv)
                    } else {
                        get(n, q)
                    } by {
                    lemma_split(q, rk, c as int);
                    assert(pv =~= pv.take(c as int));
                    assert(rk.take(c as int) == pv);
                    if q == rk {
                        assert(q.take(c as int) =~= rk.take(c as int));
                    }
                    if has_prefix(q, pv) {
                        assert(get(r, q) == get(ncv, q.skip(c as int)));
                    }
                }
                r
            } else {
                let ghost cv = *child;
                let nib = p[c];
                let tail = slice(&p, c + 1, p.len());
                let sub = make_ext(tail, *child);
                let ghost subv = sub;
                let b0 = empty_branch();
                assert(seq![nib][0] == nib);
                let b1 = put_node(b0, nib, sub);
                let ghost r2 = key@.skip(pos + c);
                assert(r2.len() > 0 ==> r2[0] == key@[pos + c]);
                assert(slot_free(b0, r2));
                let b2 = put_leaf(b1, key, pos + c, value);
                proof {
                    if canonical(n) {
                        assert(cv is Branch && canonical(cv));
                        assert(canonical(subv) && !(subv is Empty));
                        lemma_has_key(subv);
                        let qs = choose|q: Seq<u8>| #[trigger] get(subv, q) is Some;
                        let q = seq![nib] + qs;
                        assert(q.skip(1) =~= qs);
                        assert(q[0] == nib);
                        assert(get(b1, q) is Some);
                        assert(get(b2, q) is Some);
                        assert(get(b2, r2) is Some);
                        assert(r2.len() == 0 || r2[0] != nib);
                        assert(get(b2, r2) is Some && get(b2, q) is Some);
                        assert(spread(b2));
                        assert(canonical(b2));
                    }
                }
                let prefix = slice(&p, 0, c);
                let r = make_ext(prefix, b2);
                assert(key@.skip(pos + c) =~= rk.skip(c as int));
                assert forall|q: Seq<u8>|
                    #[trigger] get(r, q) == if q == rk {
                        Some(vv)
                    } else {
                        get(n, q)
                    } by {
                    lemma_split(q, rk, c as int);
                    lemma_ext_split(q, pv, c as int);
                    assert(prefix@ =~= pv.take(c as int));
                    assert(tail@ =~= pv.skip(c + 1));
                    assert(rk.take(c as int) =~= pv.take(c as int));
                    if q == rk {
                        assert(q.take(c as int) =~= rk.take(c as int));
                    }
                }
                r
            }
        },
        Node::Branch { mut children, value: bv } => {
            if pos == key.len() {
                let r = Node::Branch { children, value: Some(value) };
                assert forall|q: Seq<u8>|
                    #[trigger] get(r, q) == if q == rk {
                        Some(vv)
                    } else {
                        get(n, q)
                    } by {
                    if q.len() == 0 {
                        assert(q =~= rk);
                    }
                }
                proof {
                    if canonical(n) {
                        let (q1, q2) = choose|q1: Seq<u8>, q2: Seq<u8>|
                            #![trigger get(n, q1), get(n, q2)]
                            get(n, q1) is Some && get(n, q2) is Some && q2.len() > 0 && (q1.len()
                                == 0 || q1[0] != q2[0]);
                        assert(get(r, q1) is Some && get(r, q2) is Some);
                        assert(spread(r));
                    }
                }
                r
            } else {
                let i = key[pos] as usize;
                let ghost old_children = children@;
                let ch = children.remove(i);
                let ghost chv = ch;
                assert(wf(old_children[i as int]));
                let nc = insert_at(ch, key, pos + 1, value);
                let ghost ncv = nc;
                children.insert(i, nc);
                assert(children@ =~= old_children.update(i as int, ncv));
                let r = Node::Branch { children, value: bv };
                assert(key@.skip(pos + 1) =~= rk.skip(1));
                assert forall|q: Seq<u8>|
                    #[trigger] get(r, q) == if q == rk {
                        Some(vv)
                    } else {
                        get(n, q)
                    } by {
                    lemma_split(q, rk, 1);
                    assert(rk[0] == i);
                    if q.len() > 0 {
                        if q[0] == i {
                            assert(q.take(1) =~= rk.take(1));
                            assert(get(r, q) == get(ncv, q.skip(1)));
                            assert(get(n, q) == get(chv, q.skip(1)));
                        } else {
                            assert(q.take(1)[0] != rk.take(1)[0]);
                            assert(q != rk);
                            if q[0] < 16 {
                                assert(children@[q[0] as int] == old_children[q[0] as int]);
                            }
                        }
                    } else {
                        assert(q.len() != rk.len());
                    }
                }
                assert forall|j: int| 0 <= j < 16 implies wf(#[trigger] children@[j]) by {
                    if j != i {
                        assert(children@[j] == old_children[j]);
                    }
                }
                proof {
                    if canonical(n) {
                        assert(canonical(old_children[i as int]));
                        assert forall|j: int| 0 <= j < children@.len() implies canonical(
                            #[trigger] children@[j],
                        ) by {
                            if j != i {
                                assert(children@[j] == old_children[j]);
                            }
                        }
                        let (q1, q2) = choose|q1: Seq<u8>, q2: Seq<u8>|
                            #![trigger get(n, q1), get(n, q2)]
                            get(n, q1) is Some && get(n, q2) is Some && q2.len() > 0 && (q1.len()
                                == 0 || q1[0] != q2[0]);
                        assert(get(r, q1) is Some && get(r, q2) is Some);
                        assert(spread(r));
                    }
                }
                r
            }
        },
    }
}

/// Nibbles joined two by two into bytes.
pub open spec fn hex_pairs(p: Seq<u8>) -> Seq<u8> {
    Seq::new(p.len() / 2, |i: int| (p[2 * i] * 16 + p[2 * i + 1]) as u8)
}

/// Compact form of a path: a flag nibble for odd length and for a leaf, then
/// the nibbles packed into bytes.
pub open spec fn hex_prefix(p: Seq<u8>, leaf: bool) -> Seq<u8> {
    let flag: int = if leaf {
        2
    } else {
        0
    };
    if p.len() % 2 == 1 {
        seq![((flag + 1) * 16 + p[0]) as u8] + hex_pairs(p.skip(1))
    } else {
        seq![(flag * 16) as u8] + hex_pairs(p)
    }
}

/// How a parent refers to a child with encoding `e`: inline when short,
/// else by the encoded digest.
pub open spec fn node_ref(e: Seq<u8>) -> Seq<u8> {
    if e.len() < 32 {
        e
    } else {
        rlp_string(keccak_of(e))
    }
}

pub open spec fn branch_value(v: Option<Vec<u8>>) -> Seq<u8> {
    match v {
        Some(x) => x@,
        None => Seq::empty(),
    }
}

/// The references to the first `k` nodes of `cs`, joined.
pub open spec fn child_refs(cs: Seq<Node>, k: int) -> Seq<u8>
    decreases cs, k,
{
    if k <= 0 || k > cs.len() {
        Seq::empty()
    } else {
        child_refs(cs, k - 1) + node_ref(encode_node(cs[k - 1]))
    }
}

/// The serialized form of a node.
pub open spec fn encode_node(n: Node) -> Seq<u8>
    decreases n, 0int,
{
    match n {
        Node::Empty => seq![0x80u8],
        Node::Leaf { nibbles, value } => rlp_list(
            rlp_string(hex_prefix(nibbles@, true)) + rlp_string(value@),
        ),
        Node::Extension { nibbles, child } => rlp_list(
            rlp_string(hex_prefix(nibbles@, false)) + node_ref(encode_node(*child)),
        ),
        Node::Branch { children, value } => rlp_list(
            child_refs(children@, children@.len() as int) + rlp_string(
                branch_value(value),
            ),
        ),
    }
}

/// The commitment to the contents below a node.
pub open spec fn root_hash_of(n: Node) -> Seq<u8> {
    keccak_of(encode_node(n))
}

fn hex_prefix_exec(p: &Vec<u8>, leaf: bool) -> (r: Vec<u8>)
    requires
        is_nibbles(p@),
        p@.len() <= MAX_KEY_NIBBLES,
    ensures
        r@ == hex_prefix(p@, leaf),
        r@.len() <= p@.len() / 2 + 1,
{
    let flag: u8 = if leaf {
        2
    } else {
        0
    };
    let start: usize = p.len() % 2;
    let mut out: Vec<u8> = Vec::new();
    if start == 1 {
        out.push((flag + 1) * 16 + p[0]);
    } else {
        out.push(flag * 16);
    }
    let ghost first = out@;
    let ghost ps = p@.skip(start as int);
    let mut k: usize = 0;
    while start + 2 * k + 1 < p.len()
        invariant
            start <= 1,
            start + 2 * k <= p@.len(),
            p@.len() <= MAX_KEY_NIBBLES,
            is_nibbles(p@),
            ps == p@.skip(start as int),
            out@ =~= first + hex_pairs(ps).take(k as int),
            first.len() == 1,
            k <= hex_pairs(ps).len(),
        decreases p@.len() - 2 * k,
    {
        let hi = p[start + 2 * k];
        let lo = p[start + 2 * k + 1];
        out.push(hi * 16 + lo);
        assert(hex_pairs(ps)[k as int] == (hi * 16 + lo) as u8);
        k = k + 1;
        assert(out@ =~= first + hex_pairs(ps).take(k as int));
    }
    assert(hex_pairs(ps).take(k as int) =~= hex_pairs(ps));
    out
}

/// How a parent refers to a node with encoding `e`.
fn ref_of(e: Vec<u8>) -> (r: Vec<u8>)
    ensures
        r@ == node_ref(e@),
        r@.len() <= 33,
{
    if e.len() < 32 {
        e
    } else {
        let h = keccak256(&e);
        proof {
            lemma_rlp_len(h@);
        }
        rlp_encode_string(&h)
    }
}

/// The serialized form of a node.
pub fn encode(n: &Node) -> (r: Vec<u8>)
    requires
        wf(*n),
    ensures
        r@ == encode_node(*n),
        r@.len() <= 0x200_0000,
    decreases *n,
{
    match n {
        Node::Empty => {
            let mut e: Vec<u8> = Vec::new();
            e.push(0x80u8);
            assert(e@ =~= seq![0x80u8]);
            assert(encode_node(*n) == seq![0x80u8]);
            e
        },
        Node::Leaf { nibbles, value } => {
            let hp = hex_prefix_exec(nibbles, true);
            let mut payload = rlp_encode_string(&hp);
            let mut v = rlp_encode_string(value);
            proof {
                lemma_rlp_len(hp@);
                lemma_rlp_len(value@);
            }
            payload.append(&mut v);
            proof {
                lemma_rlp_len(payload@);
            }
            rlp_encode_list(&payload)
        },
        Node::Extension { nibbles, child } => {
            let hp = hex_prefix_exec(nibbles, false);
            let mut payload = rlp_encode_string(&hp);
            proof {
                lemma_rlp_len(hp@);
            }
            let e = encode(child);
            let mut cr = ref_of(e);
            payload.append(&mut cr);
            proof {
                lemma_rlp_len(payload@);
            }
            rlp_encode_list(&payload)
        },
        Node::Branch { children, value } => {
            let mut payload: Vec<u8> = Vec::new();
            let mut i: usize = 0;
            while i < children.len()
                invariant
                    wf(*n),
                    *n == (Node::Branch { children: *children, value: *value }),
                    i <= children@.len() == 16,
                    payload@ =~= child_refs(children@, i as int),
                    payload@.len() <= 33 * i,
                decreases children@.len() - i,
            {
                assert(wf(children@[i as int]));
                let e = encode(&children[i]);
                let mut cr = ref_of(e);
                payload.append(&mut cr);
                i = i + 1;
            }
            let bv: Vec<u8> = match value {
                Some(x) => x.clone(),
                None => Vec::new(),
            };
            let mut vs = rlp_encode_string(&bv);
            proof {
                lemma_rlp_len(bv@);
            }
            payload.append(&mut vs);
            proof {
                lemma_rlp_len(payload@);
            }
            rlp_encode_list(&payload)
        },
    }
}

/// A copy of a trie that stays available once the source is consumed:
/// same contents, same encoding, same shape.
pub fn duplicate(n: &Node) -> (r: Node)
    requires
        wf(*n),
    ensures
        wf(r),
        forall|q: Seq<u8>| #[trigger] get(r, q) == get(*n, q),
        encode_node(r) == encode_node(*n),
        canonical(*n) ==> canonical(r),
        n is Empty ==> r is Empty,
        n is Branch ==> r is Branch,
    decreases *n,
{
    match n {
        Node::Empty => Node::Empty,
        Node::Leaf { nibbles, value } => Node::Leaf { nibbles: nibbles.clone(), value: value.clone() },
        Node::Extension { nibbles, child } => {
            let c = duplicate(child);
            let ghost cv = c;
            let r = Node::Extension { nibbles: nibbles.clone(), child: Box::new(c) };
            assert forall|q: Seq<u8>| #[trigger] get(r, q) == get(*n, q) by {
                if has_prefix(q, nibbles@) {
                    assert(get(cv, q.skip(nibbles@.len() as int)) == get(**child, q.skip(nibbles@.len() as int)));
                }
            }
            r
        },
        Node::Branch { children, value } => {
            let mut out: Vec<Node> = Vec::new();
            let mut i: usize = 0;
            while i < children.len()
                invariant
                    wf(*n),
                    *n == (Node::Branch { children: *children, value: *value }),
                    i <= children@.len() == 16,
                    out@.len() == i,
                    forall|j: int| 0 <= j < i ==> wf(#[trigger] out@[j]),
                    forall|j: int| 0 <= j < i ==> encode_node(#[trigger] out@[j]) == encode_node(children@[j]),
                    forall|j: int, q: Seq<u8>| 0 <= j < i ==> #[trigger] get(out@[j], q) == get(children@[j], q),
                    forall|j: int| 0 <= j < i ==> (canonical(children@[j]) ==> canonical(#[trigger] out@[j])),
                decreases children@.len() - i,
            {
                assert(wf(children@[i as int]));
                let c = duplicate(&children[i]);
                out.push(c);
                i = i + 1;
            }
            let v: Option<Vec<u8>> = match value {
                Some(x) => Some(x.clone()),
                None => None,
            };
            let ghost ov = out@;
            let r = Node::Branch { children: out, value: v };
            proof {
                lemma_child_refs_eq(ov, children@, 16);
                assert forall|q: Seq<u8>| #[trigger] get(r, q) == get(*n, q) by {
                    if q.len() > 0 && q[0] < 16 {
                        assert(get(ov[q[0] as int], q.skip(1)) == get(children@[q[0] as int], q.skip(1)));
                    }
                }
                if canonical(*n) {
                    let (q1, q2) = choose|q1: Seq<u8>, q2: Seq<u8>|
                        #![trigger get(*n, q1), get(*n, q2)]
                        get(*n, q1) is Some && get(*n, q2) is Some && q2.len() > 0 && (q1.len() == 0
                            || q1[0] != q2[0]);
                    assert(get(r, q1) is Some && get(r, q2) is Some);
                    assert(spread(r));
                }
            }
            r
        },
    }
}

/// Contents of a trie after `value` was stored under `key`, at key `q`.
pub open spec fn get_after_insert(t: Node, key: Seq<u8>, value: Seq<u8>, q: Seq<u8>) -> Option<
    Seq<u8>,
> {
    if q == key {
        Some(value)
    } else {
        get(t, q)
    }
}

/// A key that a trie takes: nibbles only, and not longer than the limit.
pub open spec fn valid_key(k: Seq<u8>) -> bool {
    is_nibbles(k) && k.len() <= MAX_KEY_NIBBLES
}

/// The trie with no entries.
pub fn empty() -> (r: Node)
    ensures
        r == Node::Empty,
        wf(r),
        canonical(r),
        forall|q: Seq<u8>| #[trigger] get(r, q) == None::<Seq<u8>>,
{
    Node::Empty
}

/// The trie with `value` stored under `key`; every other key keeps its
/// value. `MalformedKey` for a key that holds a non-nibble or is too long.
pub fn insert(trie: Node, key: &NibblePath, value: Vec<u8>) -> (r: Result<Node, StateError>)
    requires
        wf(trie),
        value@.len() <= MAX_VALUE_BYTES,
    ensures
        r is Ok <==> valid_key(key@),
        r is Err ==> r->Err_0 == StateError::MalformedKey,
        r is Ok ==> wf(r->Ok_0),
        r is Ok && canonical(trie) ==> canonical(r->Ok_0),
        r is Ok ==> forall|q: Seq<u8>|
            #[trigger] get(r->Ok_0, q) == get_after_insert(trie, key@, value@, q),
{
    if key.len() > MAX_KEY_NIBBLES {
        return Err(StateError::MalformedKey);
    }
    let k = key.to_vec();
    match NibblePath::new(k) {
        Ok(_) => {},
        Err(e) => {
            return Err(e);
        },
    }
    let k = key.to_vec();
    let r = insert_at(trie, &k, 0, value);
    assert(k@.skip(0) =~= k@);
    Ok(r)
}

/// The 32-byte commitment to a trie: the digest of its root's encoding.
pub fn root_hash(trie: &Node) -> (r: Vec<u8>)
    requires
        wf(*trie),
    ensures
        r@ == root_hash_of(*trie),
        r@.len() == 32,
{
    let e = encode(trie);
    keccak256(&e)
}

/// The empty trie encodes as the empty string, whatever came before.
pub proof fn lemma_empty_root()
    ensures
        encode_node(Node::Empty) == rlp_string(Seq::<u8>::empty()),
        root_hash_of(Node::Empty) == keccak_of(seq![0x80u8]),
{
    assert(rlp_string(Seq::<u8>::empty()) =~= seq![0x80u8]);
}

/// Storing a value under one key and then under another leaves the same
/// contents as the two stores in the other order.
pub proof fn lemma_insert_order_contents(
    t: Node,
    k1: Seq<u8>,
    v1: Seq<u8>,
    k2: Seq<u8>,
    v2: Seq<u8>,
    a: Node,
    ab: Node,
    b: Node,
    ba: Node,
)
    requires
        k1 != k2,
        forall|q: Seq<u8>| #[trigger] get(a, q) == get_after_insert(t, k1, v1, q),
        forall|q: Seq<u8>| #[trigger] get(ab, q) == get_after_insert(a, k2, v2, q),
        forall|q: Seq<u8>| #[trigger] get(b, q) == get_after_insert(t, k2, v2, q),
        forall|q: Seq<u8>| #[trigger] get(ba, q) == get_after_insert(b, k1, v1, q),
    ensures
        forall|q: Seq<u8>| #[trigger] get(ab, q) == get(ba, q),
{
    assert forall|q: Seq<u8>| #[trigger] get(ab, q) == get(ba, q) by {
        assert(get(a, q) == get_after_insert(t, k1, v1, q));
        assert(get(b, q) == get_after_insert(t, k2, v2, q));
    }
}

/// Storing the same value under the same key in tries with the same contents
/// gives tries with the same contents.
pub proof fn lemma_insert_contents_determined(
    t1: Node,
    t2: Node,
    k: Seq<u8>,
    v: Seq<u8>,
    r1: Node,
    r2: Node,
)
    requires
        forall|q: Seq<u8>| #[trigger] get(t1, q) == get(t2, q),
        forall|q: Seq<u8>| #[trigger] get(r1, q) == get_after_insert(t1, k, v, q),
        forall|q: Seq<u8>| #[trigger] get(r2, q) == get_after_insert(t2, k, v, q),
    ensures
        forall|q: Seq<u8>| #[trigger] get(r1, q) == get(r2, q),
{
    assert forall|q: Seq<u8>| #[trigger] get(r1, q) == get(r2, q) by {
        assert(get(t1, q) == get(t2, q));
    }
}

} // verus!
