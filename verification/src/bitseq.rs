//! Spec-level vocabulary for bit sequences: population count, pointwise
//! complement, constant and repeated sequences, and the lemmas that relate
//! them. Every contract of the tree speaks in these terms.

use vstd::prelude::*;

verus! {

/// How many `true` bits a sequence holds (its population count).
pub open spec fn count_ones(s: Seq<bool>) -> nat
    decreases s.len(),
{
    if s.len() == 0 {
        0
    } else {
        count_ones(s.drop_last()) + if s.last() {
            1nat
        } else {
            0nat
        }
    }
}

/// The pointwise complement of a bit sequence.
pub open spec fn flip_bits(s: Seq<bool>) -> Seq<bool> {
    Seq::new(s.len(), |i: int| !s[i])
}

/// `n` copies of the same bit.
pub open spec fn uniform_bits(b: bool, n: nat) -> Seq<bool> {
    Seq::new(n, |i: int| b)
}

/// `s` repeated `n` times, end to end.
pub open spec fn repeat_bits(s: Seq<bool>, n: nat) -> Seq<bool>
    decreases n,
{
    if n == 0 {
        Seq::empty()
    } else {
        repeat_bits(s, (n - 1) as nat) + s
    }
}

/// `s` with every bit in the inclusive range `start..=end` overwritten
/// by `b`, the rest untouched.
pub open spec fn assign_bits(s: Seq<bool>, start: int, end: int, b: bool) -> Seq<bool> {
    Seq::new(
        s.len(),
        |i: int|
            if start <= i <= end {
                b
            } else {
                s[i]
            },
    )
}

/// `s` with every bit in the inclusive range `start..=end` complemented,
/// the rest untouched.
pub open spec fn toggle_bits(s: Seq<bool>, start: int, end: int) -> Seq<bool> {
    Seq::new(
        s.len(),
        |i: int|
            if start <= i <= end {
                !s[i]
            } else {
                s[i]
            },
    )
}

/// Complementing the same range twice gives back the original sequence.
pub proof fn lemma_toggle_bits_twice(s: Seq<bool>, start: int, end: int)
    ensures
        toggle_bits(toggle_bits(s, start, end), start, end) == s,
{
    assert(toggle_bits(toggle_bits(s, start, end), start, end) =~= s);
}

/// Repeating a single bit gives the constant sequence.
pub proof fn lemma_repeat_singleton(b: bool, n: nat)
    ensures
        repeat_bits(seq![b], n) == uniform_bits(b, n),
    decreases n,
{
    if n > 0 {
        lemma_repeat_singleton(b, (n - 1) as nat);
        assert(uniform_bits(b, (n - 1) as nat) + seq![b] =~= uniform_bits(b, n));
    } else {
        assert(repeat_bits(seq![b], 0) =~= uniform_bits(b, 0));
    }
}

/// Replication counts correctly: a single one bit repeated `n` times
/// holds exactly `n` ones.
pub proof fn lemma_count_repeated_one(n: nat)
    ensures
        count_ones(repeat_bits(seq![true], n)) == n,
{
    lemma_repeat_singleton(true, n);
    lemma_count_ones_uniform(true, n);
}

/// The population count of a single bit.
pub proof fn lemma_count_ones_singleton(b: bool)
    ensures
        count_ones(seq![b]) == if b {
            1nat
        } else {
            0nat
        },
{
    assert(count_ones(Seq::<bool>::empty()) == 0);
    assert(seq![b].drop_last() =~= Seq::<bool>::empty());
    assert(seq![b].last() == b);
}

/// A population count never exceeds the length.
pub proof fn lemma_count_ones_le_len(s: Seq<bool>)
    ensures
        count_ones(s) <= s.len(),
    decreases s.len(),
{
    if s.len() > 0 {
        lemma_count_ones_le_len(s.drop_last());
    }
}

/// Population count distributes over concatenation.
pub proof fn lemma_count_ones_app(a: Seq<bool>, b: Seq<bool>)
    ensures
        count_ones(a + b) == count_ones(a) + count_ones(b),
    decreases b.len(),
{
    if b.len() == 0 {
        assert(a + b =~= a);
    } else {
        lemma_count_ones_app(a, b.drop_last());
        assert((a + b).drop_last() =~= a + b.drop_last());
        assert((a + b).last() == b.last());
    }
}

/// Complementing turns every one into a zero and back: the count flips
/// against the length.
pub proof fn lemma_count_ones_flip(s: Seq<bool>)
    ensures
        count_ones(flip_bits(s)) == s.len() - count_ones(s),
    decreases s.len(),
{
    if s.len() > 0 {
        lemma_count_ones_flip(s.drop_last());
        assert(flip_bits(s).drop_last() =~= flip_bits(s.drop_last()));
        lemma_count_ones_le_len(s.drop_last());
    }
}

/// A constant sequence counts either everything or nothing.
pub proof fn lemma_count_ones_uniform(b: bool, n: nat)
    ensures
        count_ones(uniform_bits(b, n)) == if b {
            n
        } else {
            0nat
        },
    decreases n,
{
    if n > 0 {
        lemma_count_ones_uniform(b, (n - 1) as nat);
        assert(uniform_bits(b, n).drop_last() =~= uniform_bits(b, (n - 1) as nat));
    }
}

/// Complement distributes over concatenation.
pub proof fn lemma_flip_bits_app(a: Seq<bool>, b: Seq<bool>)
    ensures
        flip_bits(a + b) == flip_bits(a) + flip_bits(b),
{
    assert(flip_bits(a + b) =~= flip_bits(a) + flip_bits(b));
}

/// Complementing twice gives back the original sequence.
pub proof fn lemma_flip_bits_involution(s: Seq<bool>)
    ensures
        flip_bits(flip_bits(s)) == s,
{
    assert(flip_bits(flip_bits(s)) =~= s);
}

/// The length of a repetition.
pub proof fn lemma_repeat_bits_len(s: Seq<bool>, n: nat)
    ensures
        repeat_bits(s, n).len() == n * s.len(),
    decreases n,
{
    if n > 0 {
        let m: nat = (n - 1) as nat;
        lemma_repeat_bits_len(s, m);
        assert(repeat_bits(s, n) == repeat_bits(s, m) + s);
        assert(repeat_bits(s, n).len() == m * s.len() + s.len());
        assert(n * s.len() == m * s.len() + s.len()) by (nonlinear_arith)
            requires
                n > 0 && m == n - 1,
        ;
    } else {
        assert(repeat_bits(s, n).len() == 0);
        assert(n * s.len() == 0);
    }
}

/// Repetition splits additively: `m + n` copies are `m` copies followed by
/// `n` copies.
pub proof fn lemma_repeat_bits_add(s: Seq<bool>, m: nat, n: nat)
    ensures
        repeat_bits(s, m + n) == repeat_bits(s, m) + repeat_bits(s, n),
    decreases n,
{
    if n == 0 {
        assert(repeat_bits(s, m) + repeat_bits(s, 0) =~= repeat_bits(s, m));
    } else {
        lemma_repeat_bits_add(s, m, (n - 1) as nat);
        assert(repeat_bits(s, m) + (repeat_bits(s, (n - 1) as nat) + s) =~= (repeat_bits(
            s,
            m,
        ) + repeat_bits(s, (n - 1) as nat)) + s);
    }
}

/// The population count of a repetition.
pub proof fn lemma_count_ones_repeat(s: Seq<bool>, n: nat)
    ensures
        count_ones(repeat_bits(s, n)) == n * count_ones(s),
    decreases n,
{
    if n > 0 {
        let m: nat = (n - 1) as nat;
        lemma_count_ones_repeat(s, m);
        lemma_count_ones_app(repeat_bits(s, m), s);
        assert(count_ones(repeat_bits(s, n)) == m * count_ones(s) + count_ones(s));
        assert(n * count_ones(s) == m * count_ones(s) + count_ones(s)) by (nonlinear_arith)
            requires
                n > 0 && m == n - 1,
        ;
    } else {
        assert(count_ones(repeat_bits(s, n)) == 0);
    }
}

} // verus!
