use vstd::prelude::*;

verus! {

/// The big-endian value of a byte string.
pub open spec fn be_value(bytes: Seq<u8>) -> nat
    decreases bytes.len(),
{
    if bytes.len() == 0 {
        0
    } else {
        be_value(bytes.drop_last()) * 256 + bytes.last() as nat
    }
}

/// A 256-bit machine word, stored as its 32 big-endian bytes.
#[derive(Clone, Copy, PartialEq, Eq, Debug, Hash)]
pub struct U256 {
    pub be_bytes: [u8; 32],
}

impl U256 {
    /// The numeric value of the word.
    pub open spec fn value(self) -> nat {
        be_value(self.be_bytes@)
    }

    /// The word holding a 64-bit value.
    pub fn from_u64(v: u64) -> (r: U256)
        ensures
            r.value() == v as nat,
    {
        let mut bytes = [0u8; 32];
        let mut rest: u64 = v;
        let mut i: usize = 32;
        proof {
            assert(bytes@.subrange(32, 32) =~= Seq::<u8>::empty());
            assert(pow256(0) == 1);
            assert(be_value(bytes@.subrange(32, 32)) == 0);
            assert(rest as nat * 1 == rest as nat);
        }
        while i > 0
            invariant
                i <= 32,
                bytes@.len() == 32,
                forall|j: int| 0 <= j < i ==> bytes@[j] == 0u8,
                v as nat == be_value(bytes@.subrange(i as int, 32)) + rest as nat * pow256((32 - i) as nat),
            decreases i,
        {
            let ghost old_bytes = bytes@;
            let b = (rest % 256) as u8;
            bytes[i - 1] = b;
            proof {
                let tail_old = old_bytes.subrange(i as int, 32);
                let tail_new = bytes@.subrange(i - 1, 32);
                lemma_be_value_prepend(b, tail_old);
                assert(tail_new =~= seq![b] + tail_old);
                lemma_pow256_succ((32 - i) as nat);
                assert(rest as nat == (rest / 256) as nat * 256 + b as nat);
                assert(rest as nat * pow256((32 - i) as nat)
                    == (rest / 256) as nat * pow256((33 - i) as nat) + b as nat * pow256((32 - i) as nat))
                    by (nonlinear_arith)
                    requires
                        rest as nat == (rest / 256) as nat * 256 + b as nat,
                        pow256((33 - i) as nat) == 256 * pow256((32 - i) as nat),
                ;
                assert(tail_old.len() == 32 - i);
            }
            rest = rest / 256;
            i = i - 1;
        }
        proof {
            assert(bytes@.subrange(0, 32) =~= bytes@);
            lemma_pow256_bound(32);
            assert(rest == 0) by (nonlinear_arith)
                requires
                    v as nat == be_value(bytes@) + rest as nat * pow256(32),
                    pow256(32) > u64::MAX,
                    v <= u64::MAX,
            ;
        }
        U256 { be_bytes: bytes }
    }
}

pub open spec fn pow256(n: nat) -> nat
    decreases n,
{
    if n == 0 {
        1
    } else {
        256 * pow256((n - 1) as nat)
    }
}

proof fn lemma_pow256_succ(n: nat)
    ensures
        pow256(n + 1) == 256 * pow256(n),
{
}

proof fn lemma_pow256_bound(n: nat)
    requires
        n >= 8,
    ensures
        pow256(n) > u64::MAX,
    decreases n,
{
    if n == 8 {
        reveal_with_fuel(pow256, 9);
    } else {
        lemma_pow256_bound((n - 1) as nat);
        lemma_pow256_pos((n - 1) as nat);
    }
}

proof fn lemma_pow256_pos(n: nat)
    ensures
        pow256(n) >= 1,
    decreases n,
{
    if n > 0 {
        lemma_pow256_pos((n - 1) as nat);
    }
}

/// Prepending a byte adds its weight at the highest position.
pub proof fn lemma_be_value_prepend(b: u8, tail: Seq<u8>)
    ensures
        be_value(seq![b] + tail) == b as nat * pow256(tail.len()) + be_value(tail),
    decreases tail.len(),
{
    if tail.len() == 0 {
        assert(seq![b] + tail =~= seq![b]);
        assert(seq![b].drop_last() =~= Seq::<u8>::empty());
        assert(be_value(Seq::<u8>::empty()) == 0);
        assert(be_value(seq![b]) == b as nat);
        assert(pow256(0) == 1);
    } else {
        let s = seq![b] + tail;
        assert(s.drop_last() =~= seq![b] + tail.drop_last());
        lemma_be_value_prepend(b, tail.drop_last());
        lemma_pow256_succ((tail.len() - 1) as nat);
        let p = pow256((tail.len() - 1) as nat);
        let lo = be_value(tail.drop_last());
        assert(s.last() == tail.last());
        assert(be_value(s) == (b as nat * p + lo) * 256 + tail.last() as nat);
        assert(be_value(tail) == lo * 256 + tail.last() as nat);
        assert((b as nat * p + lo) * 256 == b as nat * (256 * p) + lo * 256) by (nonlinear_arith);
    }
}

} // verus!
