//! How often each code occurs in a sequence of codes.

use std::collections::HashMap;
use vstd::prelude::*;

verus! {

broadcast use vstd::std_specs::hash::group_hash_axioms;

/// The number of times that `code` occurs in `codes`.
pub open spec fn count_of(codes: Seq<u32>, code: u32) -> nat
    decreases codes.len(),
{
    if codes.len() == 0 {
        0
    } else {
        count_of(codes.drop_last(), code) + if codes.last() == code {
            1nat
        } else {
            0nat
        }
    }
}

/// The codes that occur in `codes`, each once, in the order in which they
/// first occur.
pub open spec fn first_seen(codes: Seq<u32>) -> Seq<u32>
    decreases codes.len(),
{
    if codes.len() == 0 {
        Seq::empty()
    } else {
        let before = first_seen(codes.drop_last());
        if before.contains(codes.last()) {
            before
        } else {
            before.push(codes.last())
        }
    }
}

/// Each code of `first_seen` with the number of times that it occurs.
pub open spec fn tallied(codes: Seq<u32>) -> Seq<(u32, nat)> {
    Seq::new(
        first_seen(codes).len(),
        |m: int| (first_seen(codes)[m], count_of(codes, first_seen(codes)[m])),
    )
}

/// No code occurs more often than the sequence is long, no code is listed
/// twice, and the listed codes are those that occur.
pub proof fn lemma_first_seen(codes: Seq<u32>)
    ensures
        first_seen(codes).no_duplicates(),
        first_seen(codes).len() <= codes.len(),
        forall|code: u32| count_of(codes, code) <= codes.len(),
        forall|code: u32| first_seen(codes).contains(code) <==> count_of(codes, code) > 0,
        forall|code: u32| first_seen(codes).contains(code) <==> codes.contains(code),
    decreases codes.len(),
{
    if codes.len() > 0 {
        let front = codes.drop_last();
        let last = codes.last();
        let before = first_seen(front);
        lemma_first_seen(front);
        assert forall|code: u32| count_of(codes, code) <= codes.len() by {
            assert(count_of(front, code) <= front.len());
        }
        assert forall|code: u32| first_seen(codes).contains(code) <==> count_of(codes, code)
            > 0 by {
            if before.contains(code) {
                let k = choose|k: int| 0 <= k < before.len() && before[k] == code;
                assert(first_seen(codes)[k] == code);
            }
            if !before.contains(last) {
                assert(first_seen(codes)[before.len() as int] == last);
            }
        }
        assert forall|code: u32| first_seen(codes).contains(code) <==> codes.contains(code) by {
            if codes.contains(code) {
                let k = choose|k: int| 0 <= k < codes.len() && codes[k] == code;
                if k < front.len() {
                    assert(front[k] == code);
                }
            }
            if front.contains(code) {
                let k = choose|k: int| 0 <= k < front.len() && front[k] == code;
                assert(codes[k] == code);
            }
            if code == last {
                assert(codes[codes.len() - 1] == code);
            }
        }
    } else {
        assert forall|code: u32| !codes.contains(code) by {}
    }
}

/// Counts how often each code occurs. The codes come in the order in which
/// they first occur.
pub fn tally(codes: &Vec<u32>) -> (counts: Vec<(u32, u32)>)
    requires
        codes.len() <= u32::MAX,
    ensures
        counts.len() == tallied(codes@).len(),
        forall|m: int|
            0 <= m < counts.len() ==> (#[trigger] counts[m]).0 == tallied(codes@)[m].0
                && counts[m].1 == tallied(codes@)[m].1,
{
    let mut counts: Vec<(u32, u32)> = Vec::new();
    let mut slots: HashMap<u32, usize> = HashMap::new();
    let mut i: usize = 0;
    while i < codes.len()
        invariant
            i <= codes.len() <= u32::MAX,
            counts.len() == first_seen(codes@.take(i as int)).len(),
            forall|m: int|
                0 <= m < counts.len() ==> (#[trigger] counts[m]).0 == first_seen(
                    codes@.take(i as int),
                )[m] && counts[m].1 == count_of(codes@.take(i as int), counts[m].0),
            forall|code: u32|
                slots@.contains_key(code) <==> first_seen(codes@.take(i as int)).contains(code),
            forall|code: u32| #[trigger]
                slots@.contains_key(code) ==> slots@[code] < counts.len()
                    && counts[slots@[code] as int].0 == code,
        decreases codes.len() - i,
    {
        let code = codes[i];
        let ghost seen = codes@.take(i as int);
        let ghost next = codes@.take(i + 1);
        proof {
            assert(next.drop_last() =~= seen);
            lemma_first_seen(seen);
            lemma_first_seen(next);
        }
        let slot = match slots.get(&code) {
            Some(slot) => Some(*slot),
            None => None,
        };
        match slot {
            Some(slot) => {
                let at = counts[slot];
                counts.set(slot, (code, at.1 + 1));
            },
            None => {
                slots.insert(code, counts.len());
                counts.push((code, 1));
            },
        }
        i += 1;
    }
    assert(codes@.take(codes.len() as int) =~= codes@);
    counts
}

} // verus!
