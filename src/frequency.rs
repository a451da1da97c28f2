//! The most frequent move of one player in a list of moves.
use vstd::prelude::*;
use crate::replay::tenth;

verus! {

/// How many times `v` occurs in `s`.
pub open spec fn occurrences(s: Seq<i32>, v: i32) -> nat
    decreases s.len(),
{
    if s.len() == 0 {
        0
    } else {
        occurrences(s.drop_last(), v) + if s.last() == v {
            1nat
        } else {
            0nat
        }
    }
}

/// Whether `v` is a move of player `flag` in `s`: it occurs there and its
/// tens digit, rounded toward zero, is `flag`.
pub open spec fn is_candidate(s: Seq<i32>, flag: int, v: i32) -> bool {
    s.contains(v) && tenth(v as int) == flag
}

/// Whether `v` is a move of `flag` in `s` that no other move of `flag` in
/// `s` outnumbers.
pub open spec fn is_mode(s: Seq<i32>, flag: int, v: i32) -> bool {
    &&& is_candidate(s, flag, v)
    &&& forall|w: i32| #[trigger] is_candidate(s, flag, w) ==> occurrences(s, w) <= occurrences(s, v)
}

/// Whether two different moves of `flag` share the highest count in `s`.
pub open spec fn mode_is_tied(s: Seq<i32>, flag: int) -> bool {
    exists|a: i32, b: i32| a != b && #[trigger] is_mode(s, flag, a) && #[trigger] is_mode(s, flag, b)
}

/// The move of player `flag` that occurs most often in `seq`, or 10 when
/// several share the highest count. `size` is not read.
pub fn bocchi_shut_up(flag: i32, seq: &[i32], size: i32) -> (r: i32)
    requires
        exists|v: i32| is_candidate(seq@, flag as int, v),
    ensures
        mode_is_tied(seq@, flag as int) ==> r == 10,
        !mode_is_tied(seq@, flag as int) ==> is_mode(seq@, flag as int, r),
{
    let ghost s = seq@;
    let ghost f = flag as int;
    // the highest count of a move of `flag`
    let mut max_freq: usize = 0;
    let mut i: usize = 0;
    while i < seq.len()
        invariant
            i <= s.len(),
            s == seq@,
            f == flag as int,
            forall|j: int|
                0 <= j < i && tenth(s[j] as int) == f ==> occurrences(s, #[trigger] s[j])
                    <= max_freq,
            max_freq == 0 || exists|j: int|
                0 <= j < i && tenth(s[j] as int) == f && occurrences(s, #[trigger] s[j])
                    == max_freq,
        decreases s.len() - i,
    {
        let q = seq[i] / 10;
        assert(q == tenth(s[i as int] as int));
        if q == flag {
            let c = count_of(seq, seq[i]);
            if c > max_freq {
                max_freq = c;
            }
        }
        i = i + 1;
    }
    let ghost w0 = choose|v: i32| is_candidate(s, f, v);
    let ghost j0 = choose|j: int| 0 <= j < s.len() && s[j] == w0;
    assert(occurrences(s, s[j0]) <= max_freq);
    proof {
        lemma_occurs(s, w0);
    }
    assert forall|w: i32| #[trigger] is_candidate(s, f, w) implies occurrences(s, w)
        <= max_freq by {
        let j = choose|j: int| 0 <= j < s.len() && s[j] == w;
        assert(occurrences(s, s[j]) <= max_freq);
    }
    // the first move of `flag` with that count
    let mut k: usize = 0;
    while k < seq.len()
        invariant
            k <= s.len(),
            s == seq@,
            f == flag as int,
            max_freq > 0,
            exists|j: int|
                k <= j < s.len() && tenth(s[j] as int) == f && occurrences(s, #[trigger] s[j])
                    == max_freq,
        ensures
            k < s.len(),
            tenth(s[k as int] as int) == f,
            occurrences(s, s[k as int]) == max_freq,
        decreases s.len() - k,
    {
        let q = seq[k] / 10;
        assert(q == tenth(s[k as int] as int));
        if q == flag && count_of(seq, seq[k]) == max_freq {
            break;
        }
        k = k + 1;
    }
    assert(k < s.len());
    let best = seq[k];
    assert(s[k as int] == best);
    assert(is_candidate(s, f, best));
    // any other move of `flag` with the same count makes a tie
    let mut t: usize = 0;
    while t < seq.len()
        invariant
            t <= s.len(),
            s == seq@,
            f == flag as int,
            is_mode(s, f, best),
            occurrences(s, best) == max_freq,
            forall|w: i32| #[trigger] is_candidate(s, f, w) ==> occurrences(s, w) <= max_freq,
            forall|j: int|
                0 <= j < t && tenth(s[j] as int) == f && occurrences(s, #[trigger] s[j])
                    == max_freq ==> s[j] == best,
        decreases s.len() - t,
    {
        let q = seq[t] / 10;
        assert(q == tenth(s[t as int] as int));
        if q == flag && seq[t] != best && count_of(seq, seq[t]) == max_freq {
            assert(s[t as int] == seq[t as int]);
            assert(is_candidate(s, f, seq[t as int]));
            assert(is_mode(s, f, seq[t as int]));
            return 10;
        }
        t = t + 1;
    }
    assert forall|a: i32| #[trigger] is_mode(s, f, a) implies a == best by {
        let j = choose|j: int| 0 <= j < s.len() && s[j] == a;
        assert(occurrences(s, s[j]) == max_freq);
    }
    best
}

/// A value that occurs in `s` occurs at least once.
proof fn lemma_occurs(s: Seq<i32>, v: i32)
    requires
        s.contains(v),
    ensures
        occurrences(s, v) >= 1,
    decreases s.len(),
{
    if s.last() != v {
        let j = choose|j: int| 0 <= j < s.len() && s[j] == v;
        assert(s.drop_last()[j] == v);
        lemma_occurs(s.drop_last(), v);
    }
}

/// How many times `v` occurs in `seq`.
fn count_of(seq: &[i32], v: i32) -> (r: usize)
    ensures
        r == occurrences(seq@, v),
{
    let mut count: usize = 0;
    let mut i: usize = 0;
    while i < seq.len()
        invariant
            i <= seq@.len(),
            count == occurrences(seq@.take(i as int), v),
            count <= i,
        decreases seq@.len() - i,
    {
        assert(seq@.take(i + 1).drop_last() =~= seq@.take(i as int));
        if seq[i] == v {
            count = count + 1;
        }
        i = i + 1;
    }
    assert(seq@.take(seq@.len() as int) =~= seq@);
    count
}

} // verus!
