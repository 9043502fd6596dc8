use vstd::prelude::*;

use crate::error::StateError;

verus! {

/// Every element is a half-byte.
pub open spec fn is_nibbles(s: Seq<u8>) -> bool {
    forall|i: int| 0 <= i < s.len() ==> #[trigger] s[i] < 16
}

/// The nibbles of a byte string, the high half of each byte first.
pub open spec fn nibbles_of(b: Seq<u8>) -> Seq<u8> {
    Seq::new(2 * b.len(), |i: int| if i % 2 == 0 { b[i / 2] / 16 } else { b[i / 2] % 16 })
}

/// A sequence of half-bytes addressing a node of a trie.
#[derive(Debug, Clone)]
pub struct NibblePath {
    pub nibbles: Vec<u8>,
}

impl View for NibblePath {
    type V = Seq<u8>;

    open spec fn view(&self) -> Seq<u8> {
        self.nibbles@
    }
}

impl NibblePath {
    pub open spec fn wf(&self) -> bool {
        is_nibbles(self@)
    }

    /// A path from its nibbles, refused where one of them is 16 or more.
    pub fn new(nibbles: Vec<u8>) -> (r: Result<NibblePath, StateError>)
        ensures
            is_nibbles(nibbles@) <==> r is Ok,
            r is Ok ==> r->Ok_0@ == nibbles@ && r->Ok_0.wf(),
            r is Err ==> r->Err_0 == StateError::MalformedKey,
    {
        let mut i: usize = 0;
        while i < nibbles.len()
            invariant
                i <= nibbles@.len(),
                forall|j: int| 0 <= j < i ==> #[trigger] nibbles@[j] < 16,
            decreases nibbles@.len() - i,
        {
            if nibbles[i] >= 16 {
                return Err(StateError::MalformedKey);
            }
            i = i + 1;
        }
        Ok(NibblePath { nibbles })
    }

    /// The 64 nibbles of a 256-bit hash, most significant first.
    pub fn from_hash(h: &[u8; 32]) -> (r: NibblePath)
        ensures
            r@ == nibbles_of(h@),
            r@.len() == 64,
            r.wf(),
    {
        let mut out: Vec<u8> = Vec::new();
        let mut i: usize = 0;
        while i < 32
            invariant
                i <= 32,
                h@.len() == 32,
                out@ =~= nibbles_of(h@.take(i as int)),
            decreases 32 - i,
        {
            let b = h[i];
            out.push(b / 16);
            out.push(b % 16);
            i = i + 1;
            assert(out@ =~= nibbles_of(h@.take(i as int)));
        }
        assert(h@.take(32) =~= h@);
        NibblePath { nibbles: out }
    }

    pub fn len(&self) -> (r: usize)
        ensures
            r == self@.len(),
    {
        self.nibbles.len()
    }

    /// The nibble at `index`; `OutOfRange` past the end.
    pub fn get_nibble(&self, index: usize) -> (r: Result<u8, StateError>)
        ensures
            index < self@.len() ==> r == Ok::<u8, StateError>(self@[index as int]),
            index >= self@.len() ==> r == Err::<u8, StateError>(StateError::OutOfRange),
    {
        if index < self.nibbles.len() {
            Ok(self.nibbles[index])
        } else {
            Err(StateError::OutOfRange)
        }
    }

    /// The path without its first `n` nibbles; `OutOfRange` when `n` exceeds the length.
    pub fn truncate_front(&self, n: usize) -> (r: Result<NibblePath, StateError>)
        ensures
            n <= self@.len() ==> r is Ok && r->Ok_0@ == self@.skip(n as int),
            n <= self@.len() && self.wf() ==> r is Ok && r->Ok_0.wf(),
            n > self@.len() ==> r == Err::<NibblePath, StateError>(StateError::OutOfRange),
    {
        if n > self.nibbles.len() {
            return Err(StateError::OutOfRange);
        }
        let mut out: Vec<u8> = Vec::new();
        let mut i: usize = n;
        while i < self.nibbles.len()
            invariant
                n <= i <= self@.len(),
                out@ =~= self@.subrange(n as int, i as int),
            decreases self@.len() - i,
        {
            out.push(self.nibbles[i]);
            i = i + 1;
        }
        Ok(NibblePath { nibbles: out })
    }

    /// The nibbles as a vector.
    pub fn to_vec(&self) -> (r: Vec<u8>)
        ensures
            r@ == self@,
    {
        self.nibbles.clone()
    }
}

} // verus!
