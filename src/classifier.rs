use crate::term_table::{
    add_term, add_terms, has_term, count_in, counts_positive, distinct_terms, match_count, views, TermCounts,
    TermTable,
};
use crate::selection::{is_best, lemma_best_is_unique, keys_of, scores_zero, select_label};
use vstd::prelude::*;

verus! {

/// The abstract state of a classifier: each label with its term counts, in
/// the order in which the labels were first trained, and the number of
/// training calls made so far.
pub struct ModelView {
    pub labels: Seq<(Seq<char>, TermCounts)>,
    pub training_count: nat,
}

pub open spec fn has_label(labels: Seq<(Seq<char>, TermCounts)>, l: Seq<char>) -> bool {
    exists|i: int| 0 <= i < labels.len() && #[trigger] labels[i].0 == l
}

impl ModelView {
    pub open spec fn empty() -> ModelView {
        ModelView { labels: Seq::empty(), training_count: 0 }
    }

    /// Labels are distinct, every table is well formed, and every label was
    /// introduced by a training call of its own.
    pub open spec fn wf(self) -> bool {
        &&& forall|i: int, j: int|
            0 <= i < self.labels.len() && 0 <= j < self.labels.len() && i != j
                ==> #[trigger] self.labels[i].0 != #[trigger] self.labels[j].0
        &&& forall|i: int|
            0 <= i < self.labels.len() ==> distinct_terms(#[trigger] self.labels[i].1)
                && counts_positive(self.labels[i].1)
        &&& self.labels.len() <= self.training_count
    }

    /// The state after training `label` on the terms `ts`: the label's table
    /// (empty if the label is new, which then goes last) records each term,
    /// and the training count grows by one.
    pub open spec fn trained(self, ts: Seq<Seq<char>>, label: Seq<char>) -> ModelView {
        ModelView {
            labels: if has_label(self.labels, label) {
                let i = choose|i: int| 0 <= i < self.labels.len() && #[trigger] self.labels[i].0 == label;
                self.labels.update(i, (label, add_terms(self.labels[i].1, ts)))
            } else {
                self.labels.push((label, add_terms(Seq::empty(), ts)))
            },
            training_count: self.training_count + 1,
        }
    }

    /// The count stored for `term` under `label`, if both are known.
    pub open spec fn term_count(self, label: Seq<char>, term: Seq<char>) -> Option<nat> {
        if has_label(self.labels, label) {
            let i = choose|i: int| 0 <= i < self.labels.len() && #[trigger] self.labels[i].0 == label;
            count_in(self.labels[i].1, term)
        } else {
            None
        }
    }
}

/// The ranking key of each label of `m` against the query `q`, given the
/// weights `ws` of the labels' probabilities: zero for a label that scores
/// zero, its weight otherwise.
pub open spec fn model_keys(m: ModelView, q: Seq<Seq<char>>, ws: Seq<u32>) -> Seq<nat> {
    Seq::new(
        m.labels.len(),
        |i: int|
            if scores_zero(m.labels[i].1.len(), match_count(m.labels[i].1, q)) {
                0
            } else {
                ws[i] as nat
            },
    )
}

/// The state after each training call of `steps` (terms, label), in order.
pub open spec fn trained_all(m: ModelView, steps: Seq<(Seq<Seq<char>>, Seq<char>)>) -> ModelView
    decreases steps.len(),
{
    if steps.len() == 0 {
        m
    } else {
        trained_all(m, steps.drop_last()).trained(steps.last().0, steps.last().1)
    }
}

proof fn lemma_training_count_grows(m: ModelView, steps: Seq<(Seq<Seq<char>>, Seq<char>)>)
    ensures
        trained_all(m, steps).training_count == m.training_count + steps.len(),
    decreases steps.len(),
{
    if steps.len() > 0 {
        lemma_training_count_grows(m, steps.drop_last());
    }
}

/// After any `n` training calls on a new classifier, whatever their texts
/// and labels, the training count is `n`.
pub proof fn lemma_training_count(steps: Seq<(Seq<Seq<char>>, Seq<char>)>)
    ensures
        trained_all(ModelView::empty(), steps).training_count == steps.len(),
{
    lemma_training_count_grows(ModelView::empty(), steps);
}

/// A new classifier gives no label a positive key, whatever the query and
/// the weights; by the contract of `guess`, its guess is then the empty
/// string.
pub proof fn lemma_new_model_has_no_positive_key(q: Seq<Seq<char>>, ws: Seq<u32>)
    ensures
        forall|j: int|
            0 <= j < ModelView::empty().labels.len() ==> #[trigger] model_keys(
                ModelView::empty(),
                q,
                ws,
            )[j] == 0,
{
}

/// With the same weights, the best label is the same: two guesses on one
/// model and one query agree whenever the weighing is a function of its
/// arguments.
pub proof fn lemma_guess_is_stable(m: ModelView, q: Seq<Seq<char>>, ws: Seq<u32>, a: int, b: int)
    requires
        is_best(model_keys(m, q, ws), a),
        is_best(model_keys(m, q, ws), b),
    ensures
        m.labels[a].0 == m.labels[b].0,
{
    lemma_best_is_unique(model_keys(m, q, ws), a, b);
}

/// A label whose table shares no term with the query scores zero, and is
/// never chosen while another label has a positive weight.
pub proof fn lemma_unmatched_label_never_wins(
    m: ModelView,
    q: Seq<Seq<char>>,
    ws: Seq<u32>,
    z: int,
    p: int,
    b: int,
)
    requires
        ws.len() == m.labels.len(),
        0 <= z < m.labels.len(),
        0 <= p < m.labels.len(),
        match_count(m.labels[z].1, q) == 0,
        !scores_zero(m.labels[p].1.len(), match_count(m.labels[p].1, q)),
        ws[p] > 0,
        is_best(model_keys(m, q, ws), b),
    ensures
        model_keys(m, q, ws)[z] == 0,
        b != z,
{
    let keys = model_keys(m, q, ws);
    assert(keys[p] <= keys[b]);
}

/// A label with an empty table scores zero, so it is not weighed and adds
/// no division; and wherever a label exists the training count is positive.
pub proof fn lemma_empty_table_scores_zero(m: ModelView, q: Seq<Seq<char>>, ws: Seq<u32>, i: int)
    requires
        m.wf(),
        0 <= i < m.labels.len(),
        m.labels[i].1.len() == 0,
    ensures
        scores_zero(0, match_count(m.labels[i].1, q)),
        model_keys(m, q, ws)[i] == 0,
        m.training_count >= 1,
{
}

/// A term seen once by a new label is stored with count 1; seen once more
/// under the same label, its count is 2.
pub proof fn lemma_first_sight_counts_one(label: Seq<char>, t: Seq<char>)
    ensures
        ModelView::empty().trained(seq![t], label).term_count(label, t) == Some(1nat),
        ModelView::empty().trained(seq![t], label).trained(seq![t], label).term_count(label, t)
            == Some(2nat),
{
    let ts = seq![t];
    let m1 = ModelView::empty().trained(ts, label);
    assert(ts.drop_last() =~= Seq::<Seq<char>>::empty());
    assert(!has_term(Seq::<(Seq<char>, nat)>::empty(), t));
    let e = Seq::<(Seq<char>, nat)>::empty();
    assert(ts.last() == t);
    assert(add_terms(e, ts.drop_last()) == e);
    let t1 = add_terms(e, ts);
    assert(t1 == add_term(e, t));
    assert(t1 =~= seq![(t, 1nat)]);
    assert(m1.labels =~= seq![(label, t1)]);
    assert(t1[0].0 == t);
    assert(has_term(t1, t));
    let m2 = m1.trained(ts, label);
    assert(m1.labels[0].0 == label);
    assert(has_label(m1.labels, label));
    assert(add_terms(t1, ts.drop_last()) == t1);
    let t2 = add_terms(t1, ts);
    assert(t2 == add_term(t1, t));
    assert(t2 =~= seq![(t, 2nat)]);
    assert(m2.labels =~= seq![(label, t2)]);
    assert(t2[0].0 == t);
    assert(has_term(t2, t));
}

/// What the scoring of one label against a query depends on.
pub struct LabelScore {
    pub label: String,
    /// The number of distinct terms recorded for the label.
    pub distinct_terms: usize,
    /// The number of query terms, with repetitions, that the label has recorded.
    pub matched_terms: usize,
}

struct LabelEntry {
    label: String,
    table: TermTable,
}

pub struct NaiveBayesClassifier {
    documents: Vec<LabelEntry>,
    total_document_count: u64,
}

impl View for NaiveBayesClassifier {
    type V = ModelView;

    closed spec fn view(&self) -> ModelView {
        ModelView {
            labels: self.documents@.map_values(|e: LabelEntry| (e.label@, e.table@)),
            training_count: self.total_document_count as nat,
        }
    }
}

impl NaiveBayesClassifier {
    pub open spec fn wf(&self) -> bool {
        self@.wf()
    }

    pub fn new() -> (r: NaiveBayesClassifier)
        ensures
            r@ == ModelView::empty(),
            r.wf(),
    {
        let r = NaiveBayesClassifier { documents: Vec::new(), total_document_count: 0 };
        assert(r@.labels =~= Seq::<(Seq<char>, TermCounts)>::empty());
        r
    }

    /// The number of training calls made so far.
    pub fn training_count(&self) -> (r: u64)
        ensures
            r == self@.training_count,
    {
        self.total_document_count
    }

    /// The number of labels trained so far.
    pub fn label_count(&self) -> (r: usize)
        ensures
            r == self@.labels.len(),
    {
        self.documents.len()
    }

    fn find_label(&self, l: &String) -> (r: Option<usize>)
        ensures
            match r {
                Some(i) => i < self@.labels.len() && self@.labels[i as int].0 == l@,
                None => !has_label(self@.labels, l@),
            },
    {
        let n = self.documents.len();
        let mut i: usize = 0;
        while i < n
            invariant
                n == self@.labels.len(),
                i <= n,
                forall|j: int| 0 <= j < i ==> self@.labels[j].0 != l@,
            decreases n - i,
        {
            if self.documents[i].label == *l {
                return Some(i);
            }
            i = i + 1;
        }
        None
    }

    /// Adds the occurrences of the stemmed terms `terms` to the table of
    /// `label`, creating the table if the label is new, and counts one more
    /// training call.
    pub fn train(&mut self, terms: &Vec<String>, label: &str)
        requires
            old(self).wf(),
            old(self)@.training_count < u64::MAX,
        ensures
            final(self).wf(),
            final(self)@ == old(self)@.trained(views(terms@), label@),
    {
        let l = label.to_owned();
        let ghost before = self@;
        let ghost ts = views(terms@);
        let ghost mut idx: int = before.labels.len() as int;
        match self.find_label(&l) {
            Some(i) => {
                let mut e = self.documents.remove(i);
                assert(e.table@ == before.labels[i as int].1);
                e.table.add_all(terms);
                self.documents.insert(i, e);
                proof {
                    idx = i as int;
                    assert(self.documents@[idx].table.wf());
                    let k = choose|k: int|
                        0 <= k < before.labels.len() && #[trigger] before.labels[k].0 == l@;
                    assert(before.labels[k].0 == before.labels[i as int].0);
                    assert(self@.labels =~= before.labels.update(
                        i as int,
                        (l@, add_terms(before.labels[i as int].1, ts)),
                    ));
                }
            },
            None => {
                let mut t = TermTable::new();
                t.add_all(terms);
                self.documents.push(LabelEntry { label: l, table: t });
                proof {
                    assert(self.documents@[idx].table.wf());
                    assert(self@.labels =~= before.labels.push(
                        (l@, add_terms(Seq::empty(), ts)),
                    ));
                }
            },
        }
        self.total_document_count = self.total_document_count + 1;
        proof {
            let after = self@;
            assert(after == before.trained(ts, label@));
            assert forall|a: int, b: int|
                0 <= a < after.labels.len() && 0 <= b < after.labels.len() && a != b implies
                #[trigger] after.labels[a].0 != #[trigger] after.labels[b].0 by {
                if a < before.labels.len() && b < before.labels.len() {
                    assert(after.labels[a].0 == before.labels[a].0);
                    assert(after.labels[b].0 == before.labels[b].0);
                }
            }
            assert forall|a: int| 0 <= a < after.labels.len() implies distinct_terms(
                #[trigger] after.labels[a].1,
            ) && counts_positive(after.labels[a].1) by {
                if a == idx {
                    assert(self.documents@[idx].table.wf());
                } else {
                    assert(after.labels[a] == before.labels[a]);
                }
            }
        }
    }

    /// The count stored for `term` under `label`, if the label has recorded it.
    pub fn term_count(&self, label: &str, term: &str) -> (r: Option<u64>)
        requires
            self.wf(),
        ensures
            r == (match self@.term_count(label@, term@) {
                Some(c) => Some(c as u64),
                None => None::<u64>,
            }),
    {
        let l = label.to_owned();
        match self.find_label(&l) {
            Some(i) => {
                proof {
                    let k = choose|k: int|
                        0 <= k < self@.labels.len() && #[trigger] self@.labels[k].0 == l@;
                    assert(self@.labels[k].0 == self@.labels[i as int].0);
                }
                let t = term.to_owned();
                assert(self.documents@[i as int].table.wf());
                self.documents[i].table.count_of(&t)
            },
            None => None,
        }
    }

    /// For each label, in order, the statistics that score it against the
    /// stemmed query `query`.
    pub fn label_scores(&self, query: &Vec<String>) -> (r: Vec<LabelScore>)
        ensures
            r@.len() == self@.labels.len(),
            forall|i: int|
                0 <= i < r@.len() ==> (#[trigger] r@[i]).label@ == self@.labels[i].0
                    && r@[i].distinct_terms == self@.labels[i].1.len()
                    && r@[i].matched_terms == match_count(self@.labels[i].1, views(query@)),
    {
        let n = self.documents.len();
        let mut r: Vec<LabelScore> = Vec::new();
        let mut i: usize = 0;
        while i < n
            invariant
                n == self@.labels.len(),
                i <= n,
                r@.len() == i,
                forall|j: int|
                    0 <= j < i ==> (#[trigger] r@[j]).label@ == self@.labels[j].0
                        && r@[j].distinct_terms == self@.labels[j].1.len()
                        && r@[j].matched_terms == match_count(self@.labels[j].1, views(query@)),
            decreases n - i,
        {
            let e = &self.documents[i];
            r.push(
                LabelScore {
                    label: e.label.clone(),
                    distinct_terms: e.table.len(),
                    matched_terms: e.table.count_matches(query),
                },
            );
            i = i + 1;
        }
        r
    }

    /// The label judged most likely for the stemmed query `query`, or the
    /// empty string when no label scores above zero (in particular when no
    /// label was trained).
    ///
    /// A label scores zero when no query term is in its table or its table
    /// holds a single term. Every other label is weighed by `weigh`, from its
    /// number of distinct terms, its number of matched query terms and the
    /// training count (then at least one): the weight must grow with the
    /// label's probability. The label with the largest positive weight wins.
    /// Labels are scanned in the order in which they were first trained, so
    /// among equal weights the one trained last wins.
    pub fn guess<F: Fn(usize, usize, u64) -> u32>(&self, query: &Vec<String>, weigh: F) -> (r:
        String)
        requires
            self.wf(),
            forall|d: usize, m: usize, t: u64| weigh.requires((d, m, t)),
        ensures
            self@.labels.len() == 0 ==> r@ == Seq::<char>::empty(),
            exists|ws: Seq<u32>|
                #![trigger model_keys(self@, views(query@), ws)]
                ws.len() == self@.labels.len() && (forall|i: int|
                    0 <= i < ws.len() && !scores_zero(
                        self@.labels[i].1.len(),
                        match_count(self@.labels[i].1, views(query@)),
                    ) ==> weigh.ensures(
                        (
                            self@.labels[i].1.len() as usize,
                            match_count(self@.labels[i].1, views(query@)) as usize,
                            self@.training_count as u64,
                        ),
                        #[trigger] ws[i],
                    )) && ((forall|j: int|
                    0 <= j < self@.labels.len() ==> #[trigger] model_keys(
                        self@,
                        views(query@),
                        ws,
                    )[j] == 0) ==> r@ == Seq::<char>::empty()) && ((exists|j: int|
                    0 <= j < self@.labels.len() && #[trigger] model_keys(
                        self@,
                        views(query@),
                        ws,
                    )[j] > 0) ==> exists|b: int|
                    is_best(model_keys(self@, views(query@), ws), b) && r@ == (
                    #[trigger] self@.labels[b]).0),
    {
        let scores = self.label_scores(query);
        let t = self.total_document_count;
        let n = scores.len();
        let mut weights: Vec<u32> = Vec::new();
        let mut i: usize = 0;
        while i < n
            invariant
                n == scores@.len(),
                i <= n,
                weights@.len() == i,
                forall|d: usize, m: usize, t: u64| weigh.requires((d, m, t)),
                forall|j: int|
                    0 <= j < i && !scores_zero(
                        scores@[j].distinct_terms as nat,
                        scores@[j].matched_terms as nat,
                    ) ==> weigh.ensures(
                        (scores@[j].distinct_terms, scores@[j].matched_terms, t),
                        #[trigger] weights@[j],
                    ),
            decreases n - i,
        {
            let w = if scores[i].is_zero() {
                0
            } else {
                weigh(scores[i].distinct_terms, scores[i].matched_terms, t)
            };
            weights.push(w);
            i = i + 1;
        }
        let r = select_label(&scores, &weights);
        proof {
            let q = views(query@);
            let ws = weights@;
            let keys = model_keys(self@, q, ws);
            assert(keys_of(scores@, ws) =~= keys);
            if exists|j: int| 0 <= j < n && #[trigger] keys[j] > 0 {
                let b = choose|b: int|
                    is_best(keys_of(scores@, ws), b) && r@ == (#[trigger] scores@[b]).label@;
                assert(is_best(keys, b) && r@ == self@.labels[b].0);
            }
        }
        r
    }
}

} // verus!
