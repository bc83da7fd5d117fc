//! Sums over the keys of a queue, used for the weight ledger and for the
//! termination of the main-queue scan.
use vstd::prelude::*;

verus! {

/// Sum of `f` over the keys of `keys`, in order.
pub open spec fn key_sum(keys: Seq<u64>, f: spec_fn(u64) -> nat) -> nat
    decreases keys.len(),
{
    if keys.len() == 0 {
        0
    } else {
        key_sum(keys.drop_last(), f) + f(keys.last())
    }
}

pub proof fn lemma_key_sum_push(keys: Seq<u64>, f: spec_fn(u64) -> nat, k: u64)
    ensures
        key_sum(keys.push(k), f) == key_sum(keys, f) + f(k),
{
    assert(keys.push(k).drop_last() =~= keys);
}

pub proof fn lemma_key_sum_first(keys: Seq<u64>, f: spec_fn(u64) -> nat)
    requires
        keys.len() > 0,
    ensures
        key_sum(keys, f) == f(keys[0]) + key_sum(keys.drop_first(), f),
    decreases keys.len(),
{
    if keys.len() > 1 {
        lemma_key_sum_first(keys.drop_last(), f);
        assert(keys.drop_last().drop_first() =~= keys.drop_first().drop_last());
    } else {
        assert(keys.drop_last() =~= Seq::<u64>::empty());
        assert(keys.drop_first() =~= Seq::<u64>::empty());
    }
}

/// The sum reads `f` only at the keys of `keys`.
pub proof fn lemma_key_sum_frame(keys: Seq<u64>, f: spec_fn(u64) -> nat, g: spec_fn(u64) -> nat)
    requires
        forall|i: int| 0 <= i < keys.len() ==> f(#[trigger] keys[i]) == g(keys[i]),
    ensures
        key_sum(keys, f) == key_sum(keys, g),
    decreases keys.len(),
{
    if keys.len() > 0 {
        let init = keys.drop_last();
        assert forall|i: int| 0 <= i < init.len() implies f(#[trigger] init[i]) == g(init[i]) by {
            assert(init[i] == keys[i]);
        }
        lemma_key_sum_frame(init, f, g);
    }
}

/// Membership after appending at the tail of a queue.
pub proof fn lemma_push_contains(keys: Seq<u64>, x: u64, k: u64)
    ensures
        keys.push(x).contains(k) <==> (keys.contains(k) || k == x),
{
    let s = keys.push(x);
    if s.contains(k) {
        let i = choose|i: int| 0 <= i < s.len() && s[i] == k;
        if i < keys.len() {
            assert(keys[i] == k);
        }
    }
    if keys.contains(k) {
        let i = choose|i: int| 0 <= i < keys.len() && keys[i] == k;
        assert(s[i] == k);
    }
    if k == x {
        assert(s[keys.len() as int] == k);
    }
}

/// Membership after popping the head of a queue without duplicates.
pub proof fn lemma_drop_first_contains(keys: Seq<u64>, k: u64)
    requires
        keys.len() > 0,
        keys.no_duplicates(),
    ensures
        keys.drop_first().contains(k) <==> (keys.contains(k) && k != keys[0]),
        keys.drop_first().no_duplicates(),
{
    let rest = keys.drop_first();
    if rest.contains(k) {
        let i = choose|i: int| 0 <= i < rest.len() && rest[i] == k;
        assert(keys[i + 1] == k);
    }
    if keys.contains(k) && k != keys[0] {
        let i = choose|i: int| 0 <= i < keys.len() && keys[i] == k;
        assert(rest[i - 1] == k);
    }
}

} // verus!
