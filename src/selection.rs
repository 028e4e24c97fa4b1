use crate::classifier::LabelScore;
use vstd::prelude::*;

verus! {

/// A label's probability is exactly zero when none of the query's terms was
/// recorded for it, or when its table holds at most one distinct term (each
/// match then adds the logarithm of one, which is zero). No division is
/// made for such a label.
pub open spec fn scores_zero(distinct_terms: nat, matched_terms: nat) -> bool {
    matched_terms == 0 || distinct_terms <= 1
}

/// The ranking key of a label: zero for a label that scores zero, else the
/// weight that the caller gave its probability.
pub open spec fn key_of(s: LabelScore, w: u32) -> nat {
    if scores_zero(s.distinct_terms as nat, s.matched_terms as nat) {
        0
    } else {
        w as nat
    }
}

pub open spec fn keys_of(scores: Seq<LabelScore>, weights: Seq<u32>) -> Seq<nat> {
    Seq::new(scores.len(), |i: int| key_of(scores[i], weights[i]))
}

/// `b` holds the largest key, and every later position holds a smaller one:
/// among the positions that share the largest key, `b` is the last.
pub open spec fn is_best(keys: Seq<nat>, b: int) -> bool {
    &&& 0 <= b < keys.len()
    &&& forall|j: int| 0 <= j < keys.len() ==> #[trigger] keys[j] <= keys[b]
    &&& forall|j: int| b < j < keys.len() ==> #[trigger] keys[j] < keys[b]
}

impl LabelScore {
    pub fn is_zero(&self) -> (r: bool)
        ensures
            r == scores_zero(self.distinct_terms as nat, self.matched_terms as nat),
    {
        self.matched_terms == 0 || self.distinct_terms <= 1
    }
}

/// Picks the label of the largest positive key, or the empty string when
/// no key is positive. Labels are scanned in order, starting from the empty
/// label with key zero; a label with a positive key that is not below the
/// best one so far takes its place.
pub fn select_label(scores: &Vec<LabelScore>, weights: &Vec<u32>) -> (r: String)
    requires
        weights@.len() == scores@.len(),
    ensures
        (forall|j: int| 0 <= j < scores@.len() ==> #[trigger] keys_of(scores@, weights@)[j] == 0)
            ==> r@ == Seq::<char>::empty(),
        (exists|j: int| 0 <= j < scores@.len() && #[trigger] keys_of(scores@, weights@)[j] > 0)
            ==> exists|b: int|
            is_best(keys_of(scores@, weights@), b) && r@ == (#[trigger] scores@[b]).label@,
{
    let ghost keys = keys_of(scores@, weights@);
    let n = scores.len();
    let mut best = String::new();
    let mut best_key: u32 = 0;
    let ghost mut b: int = -1;
    let mut i: usize = 0;
    while i < n
        invariant
            n == scores@.len(),
            weights@.len() == n,
            keys == keys_of(scores@, weights@),
            i <= n,
            -1 <= b < i,
            b == -1 ==> best_key == 0 && best@ == Seq::<char>::empty(),
            b >= 0 ==> best@ == scores@[b].label@ && keys[b] == best_key as nat && best_key > 0,
            forall|j: int| 0 <= j < i ==> #[trigger] keys[j] <= best_key as nat,
            b >= 0 ==> forall|j: int| b < j < i ==> #[trigger] keys[j] < best_key as nat,
        decreases n - i,
    {
        let k: u32 = if scores[i].is_zero() {
            0
        } else {
            weights[i]
        };
        assert(keys[i as int] == k as nat);
        if k > 0 && best_key <= k {
            best = scores[i].label.clone();
            best_key = k;
            proof {
                b = i as int;
            }
        }
        i = i + 1;
    }
    proof {
        if b >= 0 {
            assert(is_best(keys, b));
        }
    }
    best
}

/// Only one position can be the best: the selection does not depend on
/// anything but the keys.
pub proof fn lemma_best_is_unique(keys: Seq<nat>, a: int, b: int)
    requires
        is_best(keys, a),
        is_best(keys, b),
    ensures
        a == b,
{
    if a < b {
        assert(keys[b] < keys[a]);
    } else if b < a {
        assert(keys[a] < keys[b]);
    }
}

} // verus!
