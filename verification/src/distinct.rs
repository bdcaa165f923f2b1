//! Counting the different values of a sequence.

use vstd::prelude::*;

verus! {

/// Whether place `i` of `s` holds a value that no earlier place holds.
pub open spec fn first_at<T>(s: Seq<T>, i: int) -> bool {
    !s.take(i).contains(s[i])
}

/// The number of places among the first `n` of `s` that hold a value for
/// the first time.
pub open spec fn firsts<T>(s: Seq<T>, n: nat) -> nat
    decreases n,
{
    if n == 0 {
        0
    } else {
        firsts(s, (n - 1) as nat) + if first_at(s, n - 1) {
            1nat
        } else {
            0nat
        }
    }
}

/// The places that hold a value for the first time are as many as the
/// different values.
pub proof fn lemma_firsts<T>(s: Seq<T>, n: nat)
    requires
        n <= s.len(),
    ensures
        s.take(n as int).to_set().finite(),
        firsts(s, n) == s.take(n as int).to_set().len(),
        firsts(s, n) <= n,
    decreases n,
{
    let now = s.take(n as int);
    vstd::seq_lib::seq_to_set_is_finite(now);
    if n == 0 {
        assert(now.to_set() =~= Set::<T>::empty());
    } else {
        let before = s.take(n - 1);
        lemma_firsts(s, (n - 1) as nat);
        let v = s[n - 1];
        assert(now =~= before.push(v));
        assert forall|x: T| now.to_set().contains(x) <==> before.to_set().insert(v).contains(
            x,
        ) by {
            if now.contains(x) {
                let i = choose|i: int| 0 <= i < now.len() && now[i] == x;
                if i < n - 1 {
                    assert(before[i] == x);
                }
            }
            if before.contains(x) {
                let i = choose|i: int| 0 <= i < before.len() && before[i] == x;
                assert(now[i] == x);
            }
            assert(now[n - 1] == v);
        }
        assert(now.to_set() =~= before.to_set().insert(v));
    }
}

} // verus!
