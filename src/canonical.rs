use vstd::prelude::*;

use crate::trie::{
    branch_value, canonical, child_refs, encode_node, get, get_after_insert, has_prefix,
    lemma_insert_contents_determined, lemma_insert_order_contents, opt_view, root_hash_of, spread,
    wf, Node,
};

verus! {

proof fn lemma_concat_parts(p: Seq<u8>, q: Seq<u8>)
    ensures
        (p + q).take(p.len() as int) == p,
        (p + q).skip(p.len() as int) == q,
        has_prefix(p + q, p),
{
    assert((p + q).take(p.len() as int) =~= p);
    assert((p + q).skip(p.len() as int) =~= q);
}

/// A canonical node other than the empty one stores some key.
pub proof fn lemma_has_key(n: Node)
    requires
        canonical(n),
        !(n is Empty),
    ensures
        exists|q: Seq<u8>| #[trigger] get(n, q) is Some,
{
    match n {
        Node::Leaf { nibbles, value } => {
            assert(get(n, nibbles@) is Some);
        },
        Node::Branch { .. } => {
            let (q1, q2) = choose|q1: Seq<u8>, q2: Seq<u8>|
                #![trigger get(n, q1), get(n, q2)]
                get(n, q1) is Some && get(n, q2) is Some && q2.len() > 0 && (q1.len() == 0
                    || q1[0] != q2[0]);
            assert(get(n, q1) is Some);
        },
        Node::Extension { nibbles, child } => {
            let b = *child;
            assert(canonical(b) && b is Branch);
            assert(spread(b));
            let (q1, q2) = choose|q1: Seq<u8>, q2: Seq<u8>|
                #![trigger get(b, q1), get(b, q2)]
                get(b, q1) is Some && get(b, q2) is Some && q2.len() > 0 && (q1.len() == 0
                    || q1[0] != q2[0]);
            lemma_concat_parts(nibbles@, q1);
            assert(get(n, nibbles@ + q1) is Some);
        },
        Node::Empty => {},
    }
}

/// A canonical branch or extension stores two different keys.
proof fn lemma_two_keys(n: Node)
    requires
        canonical(n),
        n is Branch || n is Extension,
    ensures
        exists|q1: Seq<u8>, q2: Seq<u8>|
            #![trigger get(n, q1), get(n, q2)]
            get(n, q1) is Some && get(n, q2) is Some && q1 != q2,
{
    match n {
        Node::Branch { .. } => {
            let (q1, q2) = choose|q1: Seq<u8>, q2: Seq<u8>|
                #![trigger get(n, q1), get(n, q2)]
                get(n, q1) is Some && get(n, q2) is Some && q2.len() > 0 && (q1.len() == 0
                    || q1[0] != q2[0]);
            assert(q1 != q2);
        },
        Node::Extension { nibbles, child } => {
            let b = *child;
            let p = nibbles@;
            assert(canonical(b) && b is Branch);
            assert(spread(b));
            let (q1, q2) = choose|q1: Seq<u8>, q2: Seq<u8>|
                #![trigger get(b, q1), get(b, q2)]
                get(b, q1) is Some && get(b, q2) is Some && q2.len() > 0 && (q1.len() == 0
                    || q1[0] != q2[0]);
            lemma_concat_parts(p, q1);
            lemma_concat_parts(p, q2);
            assert(get(n, p + q1) is Some);
            assert(get(n, p + q2) is Some);
            assert(q1 != q2);
            assert((p + q1).skip(p.len() as int) != (p + q2).skip(p.len() as int));
        },
        _ => {},
    }
}

/// Each key stored below an extension starts with its path.
proof fn lemma_ext_keys(n: Node, q: Seq<u8>)
    requires
        n is Extension,
        get(n, q) is Some,
    ensures
        has_prefix(q, n->Extension_nibbles@),
{
}

/// Of two canonical extensions with the same contents, the shorter path is the other.
proof fn lemma_ext_path(a: Node, b: Node)
    requires
        canonical(a),
        canonical(b),
        wf(a),
        a is Extension,
        b is Extension,
        a->Extension_nibbles@.len() <= b->Extension_nibbles@.len(),
        forall|q: Seq<u8>| #[trigger] get(a, q) == get(b, q),
    ensures
        a->Extension_nibbles@ == b->Extension_nibbles@,
{
    let pa = a->Extension_nibbles@;
    let pb = b->Extension_nibbles@;
    let ca = *a->Extension_child;
    assert(canonical(ca) && ca is Branch);
    assert(spread(ca));
    let (q1, q2) = choose|q1: Seq<u8>, q2: Seq<u8>|
        #![trigger get(ca, q1), get(ca, q2)]
        get(ca, q1) is Some && get(ca, q2) is Some && q2.len() > 0 && (q1.len() == 0 || q1[0]
            != q2[0]);
    lemma_concat_parts(pa, q1);
    lemma_concat_parts(pa, q2);
    let k1 = pa + q1;
    let k2 = pa + q2;
    assert(get(a, k1) is Some);
    assert(get(a, k2) is Some);
    assert(get(b, k1) is Some);
    assert(get(b, k2) is Some);
    lemma_ext_keys(b, k1);
    lemma_ext_keys(b, k2);
    assert forall|i: int| 0 <= i < pa.len() implies pa[i] == pb[i] by {
        assert(k1.take(pb.len() as int)[i] == pb[i]);
        assert(k1[i] == pa[i]);
    }
    if pa.len() < pb.len() {
        let m = pa.len() as int;
        assert(k2.take(pb.len() as int)[m] == pb[m]);
        assert(k2[m] == q2[0]);
        if q1.len() == 0 {
            assert(k1.len() == pa.len());
        } else {
            assert(k1.take(pb.len() as int)[m] == pb[m]);
            assert(k1[m] == q1[0]);
        }
    }
    assert(pa =~= pb);
}

pub proof fn lemma_child_refs_eq(c1: Seq<Node>, c2: Seq<Node>, k: int)
    requires
        c1.len() == c2.len(),
        0 <= k <= c1.len(),
        forall|i: int| 0 <= i < k ==> encode_node(#[trigger] c1[i]) == encode_node(c2[i]),
    ensures
        child_refs(c1, k) == child_refs(c2, k),
    decreases k,
{
    if k > 0 {
        lemma_child_refs_eq(c1, c2, k - 1);
        assert(encode_node(c1[k - 1]) == encode_node(c2[k - 1]));
    }
}

/// Two canonical tries that store the same values under the same keys
/// have the same encoding.
pub proof fn lemma_same_contents_same_encoding(a: Node, b: Node)
    requires
        wf(a),
        wf(b),
        canonical(a),
        canonical(b),
        forall|q: Seq<u8>| #[trigger] get(a, q) == get(b, q),
    ensures
        encode_node(a) == encode_node(b),
    decreases a,
{
    if a is Empty || b is Empty {
        if !(a is Empty) {
            lemma_has_key(a);
            let q = choose|q: Seq<u8>| #[trigger] get(a, q) is Some;
            assert(get(b, q) is Some);
        }
        if !(b is Empty) {
            lemma_has_key(b);
            let q = choose|q: Seq<u8>| #[trigger] get(b, q) is Some;
            assert(get(a, q) is Some);
        }
        return;
    }
    if a is Leaf || b is Leaf {
        if !(a is Leaf) {
            lemma_two_keys(a);
            let (q1, q2) = choose|q1: Seq<u8>, q2: Seq<u8>|
                #![trigger get(a, q1), get(a, q2)]
                get(a, q1) is Some && get(a, q2) is Some && q1 != q2;
            assert(get(b, q1) is Some && get(b, q2) is Some);
            return;
        }
        if !(b is Leaf) {
            lemma_two_keys(b);
            let (q1, q2) = choose|q1: Seq<u8>, q2: Seq<u8>|
                #![trigger get(b, q1), get(b, q2)]
                get(b, q1) is Some && get(b, q2) is Some && q1 != q2;
            assert(get(a, q1) is Some && get(a, q2) is Some);
            return;
        }
        let pa = a->Leaf_nibbles@;
        assert(get(a, pa) is Some);
        assert(get(b, pa) is Some);
        return;
    }
    if a is Branch && b is Extension || a is Extension && b is Branch {
        let (br, ex) = if a is Branch {
            (a, b)
        } else {
            (b, a)
        };
        let (q1, q2) = choose|q1: Seq<u8>, q2: Seq<u8>|
            #![trigger get(br, q1), get(br, q2)]
            get(br, q1) is Some && get(br, q2) is Some && q2.len() > 0 && (q1.len() == 0
                || q1[0] != q2[0]);
        assert(get(ex, q1) is Some && get(ex, q2) is Some);
        lemma_ext_keys(ex, q1);
        lemma_ext_keys(ex, q2);
        let p = ex->Extension_nibbles@;
        assert(q1.take(p.len() as int)[0] == p[0]);
        assert(q2.take(p.len() as int)[0] == p[0]);
        return;
    }
    match (a, b) {
        (
            Node::Branch { children: ca, value: va },
            Node::Branch { children: cb, value: vb },
        ) => {
            assert(get(a, Seq::empty()) == get(b, Seq::empty()));
            assert(opt_view(va) == opt_view(vb));
            assert(branch_value(va) == branch_value(vb));
            assert forall|i: int| 0 <= i < 16 implies encode_node(#[trigger] ca@[i])
                == encode_node(cb@[i]) by {
                assert forall|q: Seq<u8>| #[trigger] get(ca@[i], q) == get(cb@[i], q) by {
                    let k = seq![i as u8] + q;
                    assert(k.skip(1) =~= q);
                    assert(get(a, k) == get(b, k));
                }
                lemma_same_contents_same_encoding(ca@[i], cb@[i]);
            }
            lemma_child_refs_eq(ca@, cb@, 16);
        },
        (
            Node::Extension { nibbles: pa, child: ca },
            Node::Extension { nibbles: pb, child: cb },
        ) => {
            if pa@.len() <= pb@.len() {
                lemma_ext_path(a, b);
            } else {
                lemma_ext_path(b, a);
            }
            assert forall|q: Seq<u8>| #[trigger] get(*ca, q) == get(*cb, q) by {
                lemma_concat_parts(pa@, q);
                assert(get(a, pa@ + q) == get(b, pa@ + q));
            }
            lemma_same_contents_same_encoding(*ca, *cb);
        },
        _ => {},
    }
}

/// Two canonical tries that store the same values under the same keys
/// have the same commitment.
pub proof fn lemma_same_contents_same_root(a: Node, b: Node)
    requires
        wf(a),
        wf(b),
        canonical(a),
        canonical(b),
        forall|q: Seq<u8>| #[trigger] get(a, q) == get(b, q),
    ensures
        root_hash_of(a) == root_hash_of(b),
{
    lemma_same_contents_same_encoding(a, b);
}

/// Storing values under two different keys of a trie gives the same
/// commitment whichever of the two stores comes first.
pub proof fn lemma_insert_order_root(
    t: Node,
    k1: Seq<u8>,
    v1: Seq<u8>,
    k2: Seq<u8>,
    v2: Seq<u8>,
    a: Node,
    ab: Node,
    b: Node,
    ba: Node,
)
    requires
        k1 != k2,
        wf(ab) && canonical(ab),
        wf(ba) && canonical(ba),
        forall|q: Seq<u8>| #[trigger] get(a, q) == get_after_insert(t, k1, v1, q),
        forall|q: Seq<u8>| #[trigger] get(ab, q) == get_after_insert(a, k2, v2, q),
        forall|q: Seq<u8>| #[trigger] get(b, q) == get_after_insert(t, k2, v2, q),
        forall|q: Seq<u8>| #[trigger] get(ba, q) == get_after_insert(b, k1, v1, q),
    ensures
        root_hash_of(ab) == root_hash_of(ba),
{
    lemma_insert_order_contents(t, k1, v1, k2, v2, a, ab, b, ba);
    lemma_same_contents_same_root(ab, ba);
}

/// Storing the same value under the same key in two equal tries gives the
/// same commitment.
pub proof fn lemma_insert_root_determined(
    t1: Node,
    t2: Node,
    k: Seq<u8>,
    v: Seq<u8>,
    r1: Node,
    r2: Node,
)
    requires
        t1 == t2,
        wf(r1) && canonical(r1),
        wf(r2) && canonical(r2),
        forall|q: Seq<u8>| #[trigger] get(r1, q) == get_after_insert(t1, k, v, q),
        forall|q: Seq<u8>| #[trigger] get(r2, q) == get_after_insert(t2, k, v, q),
    ensures
        root_hash_of(r1) == root_hash_of(r2),
{
    lemma_insert_contents_determined(t1, t2, k, v, r1, r2);
    lemma_same_contents_same_root(r1, r2);
}

} // verus!
