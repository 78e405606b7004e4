//! Key and value implementations for the plain types the index is used with:
//! unsigned integers, and byte strings ordered lexicographically.

use vstd::prelude::*;

use crate::order::StorageKey;
use crate::order::StorageValue;

verus! {

impl StorageValue for u32 {
    fn dup(&self) -> (r: Self)
        ensures
            r@ == self@,
    {
        *self
    }
}

impl StorageKey for u32 {
    open spec fn le_spec(a: u32, b: u32) -> bool {
        a <= b
    }

    proof fn lemma_le_reflexive(a: u32) {
    }

    proof fn lemma_le_transitive(a: u32, b: u32, c: u32) {
    }

    proof fn lemma_le_antisymmetric(a: u32, b: u32) {
    }

    proof fn lemma_le_total(a: u32, b: u32) {
    }

    fn key_le(&self, other: &Self) -> (r: bool)
        ensures
            r == Self::le_spec(self@, other@),
    {
        *self <= *other
    }
}

impl StorageValue for u64 {
    fn dup(&self) -> (r: Self)
        ensures
            r@ == self@,
    {
        *self
    }
}

impl StorageKey for u64 {
    open spec fn le_spec(a: u64, b: u64) -> bool {
        a <= b
    }

    proof fn lemma_le_reflexive(a: u64) {
    }

    proof fn lemma_le_transitive(a: u64, b: u64, c: u64) {
    }

    proof fn lemma_le_antisymmetric(a: u64, b: u64) {
    }

    proof fn lemma_le_total(a: u64, b: u64) {
    }

    fn key_le(&self, other: &Self) -> (r: bool)
        ensures
            r == Self::le_spec(self@, other@),
    {
        *self <= *other
    }
}

/// Lexicographic order on byte strings: the empty string comes first; equal
/// heads defer to the tails.
pub open spec fn lex_le(a: Seq<u8>, b: Seq<u8>) -> bool
    decreases a.len(),
{
    if a.len() == 0 {
        true
    } else if b.len() == 0 {
        false
    } else if a[0] < b[0] {
        true
    } else if b[0] < a[0] {
        false
    } else {
        lex_le(a.skip(1), b.skip(1))
    }
}

pub proof fn lemma_lex_reflexive(a: Seq<u8>)
    ensures
        lex_le(a, a),
    decreases a.len(),
{
    if a.len() > 0 {
        lemma_lex_reflexive(a.skip(1));
    }
}

pub proof fn lemma_lex_total(a: Seq<u8>, b: Seq<u8>)
    ensures
        lex_le(a, b) || lex_le(b, a),
    decreases a.len(),
{
    if a.len() > 0 && b.len() > 0 && a[0] == b[0] {
        lemma_lex_total(a.skip(1), b.skip(1));
    }
}

pub proof fn lemma_lex_antisymmetric(a: Seq<u8>, b: Seq<u8>)
    requires
        lex_le(a, b),
        lex_le(b, a),
    ensures
        a == b,
    decreases a.len(),
{
    if a.len() == 0 {
        assert(b.len() == 0);
        assert(a =~= b);
    } else {
        assert(b.len() > 0);
        assert(a[0] == b[0]);
        lemma_lex_antisymmetric(a.skip(1), b.skip(1));
        assert(a.len() == b.len()) by {
            assert(a.skip(1).len() == b.skip(1).len());
        }
        assert forall|i: int| 0 <= i < a.len() implies a[i] == b[i] by {
            if i > 0 {
                assert(a.skip(1)[i - 1] == a[i]);
                assert(b.skip(1)[i - 1] == b[i]);
            }
        }
        assert(a =~= b);
    }
}

pub proof fn lemma_lex_transitive(a: Seq<u8>, b: Seq<u8>, c: Seq<u8>)
    requires
        lex_le(a, b),
        lex_le(b, c),
    ensures
        lex_le(a, c),
    decreases a.len(),
{
    if a.len() > 0 {
        assert(b.len() > 0);
        assert(c.len() > 0);
        if a[0] == b[0] && b[0] == c[0] {
            lemma_lex_transitive(a.skip(1), b.skip(1), c.skip(1));
        }
    }
}

/// Skipping one more position past an equal head keeps the comparison.
proof fn lemma_lex_skip_step(a: Seq<u8>, b: Seq<u8>, i: int)
    requires
        0 <= i,
        i < a.len(),
        i < b.len(),
        a[i] == b[i],
    ensures
        lex_le(a.skip(i), b.skip(i)) == lex_le(a.skip(i + 1), b.skip(i + 1)),
{
    assert(a.skip(i)[0] == a[i]);
    assert(b.skip(i)[0] == b[i]);
    assert(a.skip(i).skip(1) =~= a.skip(i + 1));
    assert(b.skip(i).skip(1) =~= b.skip(i + 1));
}

impl StorageValue for Vec<u8> {
    fn dup(&self) -> (r: Self)
        ensures
            r@ == self@,
    {
        let n = self.len();
        let mut r: Vec<u8> = Vec::new();
        let mut i: usize = 0;
        while i < n
            invariant
                n == self@.len(),
                i <= n,
                r@ == self@.take(i as int),
            decreases n - i,
        {
            r.push(self[i]);
            proof {
                assert(r@ =~= self@.take(i as int + 1));
            }
            i += 1;
        }
        proof {
            assert(self@.take(n as int) =~= self@);
        }
        r
    }
}

impl StorageKey for Vec<u8> {
    open spec fn le_spec(a: Seq<u8>, b: Seq<u8>) -> bool {
        lex_le(a, b)
    }

    proof fn lemma_le_reflexive(a: Seq<u8>) {
        lemma_lex_reflexive(a);
    }

    proof fn lemma_le_transitive(a: Seq<u8>, b: Seq<u8>, c: Seq<u8>) {
        lemma_lex_transitive(a, b, c);
    }

    proof fn lemma_le_antisymmetric(a: Seq<u8>, b: Seq<u8>) {
        lemma_lex_antisymmetric(a, b);
    }

    proof fn lemma_le_total(a: Seq<u8>, b: Seq<u8>) {
        lemma_lex_total(a, b);
    }

    fn key_le(&self, other: &Self) -> (r: bool)
        ensures
            r == Self::le_spec(self@, other@),
    {
        let alen = self.len();
        let blen = other.len();
        let n = if alen < blen {
            alen
        } else {
            blen
        };
        let mut i: usize = 0;
        proof {
            assert(self@.skip(0) =~= self@);
            assert(other@.skip(0) =~= other@);
        }
        while i < n
            invariant
                alen == self@.len(),
                blen == other@.len(),
                n <= alen,
                n <= blen,
                (n == alen || n == blen),
                i <= n,
                lex_le(self@, other@) == lex_le(self@.skip(i as int), other@.skip(i as int)),
            decreases n - i,
        {
            let x = self[i];
            let y = other[i];
            proof {
                assert(self@.skip(i as int)[0] == self@[i as int]);
                assert(other@.skip(i as int)[0] == other@[i as int]);
            }
            if x < y {
                return true;
            }
            if y < x {
                return false;
            }
            proof {
                lemma_lex_skip_step(self@, other@, i as int);
            }
            i += 1;
        }
        proof {
            assert(self@.skip(i as int).len() == alen - i);
            assert(other@.skip(i as int).len() == blen - i);
        }
        alen <= blen
    }
}

} // verus!
