//! The labeled document type and the trained naive Bayes model.
//!
//! A model owns one statistics record per class. Training accumulates, for
//! each document, one document count and one occurrence count per token into
//! the class named by the document's label (1-indexed in the input, 0-indexed
//! internally).

use vstd::prelude::*;

use crate::tokenizer::{chars_of, tokenize, tokens_of};
use crate::wordmap::{count_of, lemma_count_le_total, sum_counts, WordMap};

verus! {

/// A labeled news document: a 1-indexed class label, a title and a
/// description.
#[derive(Clone)]
pub struct News {
    pub class_index: u32,
    pub title: String,
    pub description: String,
}

impl News {
    /// The text a document is tokenized from: title and description joined by
    /// one space.
    pub open spec fn text(&self) -> Seq<char> {
        self.title@ + seq![' '] + self.description@
    }

    /// The document's token sequence.
    pub open spec fn toks(&self) -> Seq<Seq<char>> {
        tokens_of(self.text())
    }

    /// The document's word tokens, in order of appearance.
    pub fn words(&self) -> (r: Vec<Vec<char>>)
        ensures
            r.deep_view() == self.toks(),
    {
        let mut chars = chars_of(self.title.as_str());
        chars.push(' ');
        let mut rest = chars_of(self.description.as_str());
        chars.append(&mut rest);
        proof {
            assert(chars@ =~= self.text());
        }
        tokenize(&chars)
    }
}

/// The mathematical content of one class's statistics.
pub struct ClassView {
    pub words: Map<Seq<char>, nat>,
    pub total: nat,
    pub docs: nat,
}

/// Per-class aggregate: word counts, their sum, and the document count.
pub struct ClassStats {
    pub word_count: WordMap,
    pub total_word_count: u64,
    pub document_count: u64,
}

impl ClassStats {
    /// The table has unique keys and the stored total equals the sum of all
    /// word counts.
    pub open spec fn wf(&self) -> bool {
        &&& self.word_count.wf()
        &&& self.total_word_count as nat == self.word_count.total()
    }

    /// The class's mathematical content.
    pub open spec fn stats(&self) -> ClassView {
        ClassView {
            words: self.word_count.view_map(),
            total: self.total_word_count as nat,
            docs: self.document_count as nat,
        }
    }

    /// A class with no observations.
    pub fn new() -> (r: ClassStats)
        ensures
            r.wf(),
            r.stats() == (ClassView { words: Map::<Seq<char>, nat>::empty(), total: 0nat, docs: 0nat }),
    {
        ClassStats { word_count: WordMap::new(), total_word_count: 0, document_count: 0 }
    }
}

/// A word map after one more occurrence of token `t`.
pub open spec fn bump(w: Map<Seq<char>, nat>, t: Seq<char>) -> Map<Seq<char>, nat> {
    w.insert(t, count_of(w, t) + 1)
}

/// A word map after one more occurrence of each token in `toks`, in order.
pub open spec fn add_tokens(w: Map<Seq<char>, nat>, toks: Seq<Seq<char>>) -> Map<Seq<char>, nat>
    decreases toks.len(),
{
    if toks.len() == 0 {
        w
    } else {
        add_tokens(bump(w, toks[0]), toks.drop_first())
    }
}

/// One class's statistics after absorbing one document with tokens `toks`.
pub open spec fn train_doc(cv: ClassView, toks: Seq<Seq<char>>) -> ClassView {
    ClassView { words: add_tokens(cv.words, toks), total: cv.total + toks.len(), docs: cv.docs + 1 }
}

/// Every document's label is a valid 1-indexed class for `n` classes.
pub open spec fn labels_ok(docs: Seq<News>, n: int) -> bool {
    forall|i: int| 0 <= i < docs.len() ==> 1 <= (#[trigger] docs[i]).class_index as int <= n
}

/// The per-class statistics after absorbing the single document `d`.
pub open spec fn train_step(m: Seq<ClassView>, d: News) -> Seq<ClassView> {
    let l = d.class_index as int - 1;
    m.update(l, train_doc(m[l], d.toks()))
}

/// The per-class statistics after training on `docs`, document by document.
pub open spec fn spec_train(m: Seq<ClassView>, docs: Seq<News>) -> Seq<ClassView>
    decreases docs.len(),
{
    if docs.len() == 0 {
        m
    } else {
        spec_train(train_step(m, docs[0]), docs.drop_first())
    }
}

/// How many times token `k` occurs in `toks`.
pub open spec fn tok_count(toks: Seq<Seq<char>>, k: Seq<char>) -> nat
    decreases toks.len(),
{
    if toks.len() == 0 {
        0
    } else {
        (if toks[0] == k {
            1nat
        } else {
            0nat
        }) + tok_count(toks.drop_first(), k)
    }
}

/// What absorbing a token list does to a word map, key by key: each token's
/// count grows by its number of occurrences, and exactly the absorbed tokens
/// join the key set.
pub proof fn lemma_add_tokens_char(w: Map<Seq<char>, nat>, toks: Seq<Seq<char>>)
    ensures
        forall|k: Seq<char>|
            count_of(add_tokens(w, toks), k) == count_of(w, k) + #[trigger] tok_count(toks, k),
        forall|k: Seq<char>|
            #[trigger] add_tokens(w, toks).dom().contains(k) <==> (w.dom().contains(k)
                || tok_count(toks, k) > 0),
    decreases toks.len(),
{
    if toks.len() > 0 {
        let w2 = bump(w, toks[0]);
        let rest = toks.drop_first();
        lemma_add_tokens_char(w2, rest);
        assert forall|k: Seq<char>|
            count_of(add_tokens(w, toks), k) == count_of(w, k) + #[trigger] tok_count(
                toks,
                k,
            ) by {
            assert(count_of(add_tokens(w2, rest), k) == count_of(w2, k) + tok_count(rest, k));
            if k == toks[0] {
                assert(count_of(w2, k) == count_of(w, k) + 1);
            } else {
                assert(count_of(w2, k) == count_of(w, k));
            }
        }
        assert forall|k: Seq<char>|
            #[trigger] add_tokens(w, toks).dom().contains(k) <==> (w.dom().contains(k)
                || tok_count(toks, k) > 0) by {
            assert(add_tokens(w2, rest).dom().contains(k) <==> (w2.dom().contains(k)
                || tok_count(rest, k) > 0));
            assert(tok_count(toks, k) == (if toks[0] == k {
                1nat
            } else {
                0nat
            }) + tok_count(rest, k));
            if k == toks[0] {
                assert(w2.dom().contains(k));
            } else {
                assert(w2.dom().contains(k) == w.dom().contains(k));
            }
        }
    }
}

/// Absorbing two token lists into a word map gives the same map in either
/// order.
pub proof fn lemma_add_tokens_comm(w: Map<Seq<char>, nat>, t1: Seq<Seq<char>>, t2: Seq<Seq<char>>)
    ensures
        add_tokens(add_tokens(w, t1), t2) == add_tokens(add_tokens(w, t2), t1),
{
    let a = add_tokens(add_tokens(w, t1), t2);
    let b = add_tokens(add_tokens(w, t2), t1);
    lemma_add_tokens_char(w, t1);
    lemma_add_tokens_char(add_tokens(w, t1), t2);
    lemma_add_tokens_char(w, t2);
    lemma_add_tokens_char(add_tokens(w, t2), t1);
    assert forall|k: Seq<char>| #![auto] true implies {
        &&& count_of(a, k) == count_of(b, k)
        &&& (a.dom().contains(k) <==> b.dom().contains(k))
    } by {
        assert(count_of(a, k) == count_of(add_tokens(w, t1), k) + tok_count(t2, k));
        assert(count_of(add_tokens(w, t1), k) == count_of(w, k) + tok_count(t1, k));
        assert(count_of(b, k) == count_of(add_tokens(w, t2), k) + tok_count(t1, k));
        assert(count_of(add_tokens(w, t2), k) == count_of(w, k) + tok_count(t2, k));
        assert(a.dom().contains(k) <==> (w.dom().contains(k) || tok_count(t1, k) > 0
            || tok_count(t2, k) > 0));
        assert(b.dom().contains(k) <==> (w.dom().contains(k) || tok_count(t2, k) > 0
            || tok_count(t1, k) > 0));
    }
    assert forall|k: Seq<char>| a.dom().contains(k) implies a[k] == b[k] by {
        assert(count_of(a, k) == count_of(b, k));
        assert(b.dom().contains(k));
    }
    assert(a =~= b);
}

/// Absorbing two documents gives the same statistics in either order.
pub proof fn lemma_train_step_comm(m: Seq<ClassView>, d1: News, d2: News)
    requires
        1 <= d1.class_index as int <= m.len(),
        1 <= d2.class_index as int <= m.len(),
    ensures
        train_step(train_step(m, d1), d2) == train_step(train_step(m, d2), d1),
{
    let l1 = d1.class_index as int - 1;
    let l2 = d2.class_index as int - 1;
    if l1 == l2 {
        lemma_add_tokens_comm(m[l1].words, d1.toks(), d2.toks());
        assert(train_step(train_step(m, d1), d2) =~= train_step(train_step(m, d2), d1));
    } else {
        assert(train_step(train_step(m, d1), d2) =~= train_step(train_step(m, d2), d1));
    }
}

/// Training on `docs` equals absorbing document `j` first and then training
/// on the rest.
proof fn lemma_train_pull(m: Seq<ClassView>, docs: Seq<News>, j: int)
    requires
        labels_ok(docs, m.len() as int),
        0 <= j < docs.len(),
    ensures
        spec_train(m, docs) == spec_train(train_step(m, docs[j]), docs.remove(j)),
    decreases j,
{
    if j == 0 {
        assert(docs.remove(0) =~= docs.drop_first());
    } else {
        let d0 = docs[0];
        let rest = docs.drop_first();
        assert(forall|i: int| 0 <= i < rest.len() ==> #[trigger] rest[i] == docs[i + 1]);
        lemma_train_pull(train_step(m, d0), rest, j - 1);
        lemma_train_step_comm(m, d0, docs[j]);
        assert(docs.remove(j).drop_first() =~= rest.remove(j - 1));
        assert(docs.remove(j)[0] == d0);
        assert(spec_train(train_step(m, docs[j]), docs.remove(j)) == spec_train(
            train_step(train_step(m, docs[j]), d0),
            rest.remove(j - 1),
        ));
    }
}

/// Training on any permutation of the same documents yields identical
/// per-class statistics.
pub proof fn lemma_train_commutative(m: Seq<ClassView>, docs1: Seq<News>, docs2: Seq<News>)
    requires
        labels_ok(docs1, m.len() as int),
        docs1.to_multiset() == docs2.to_multiset(),
    ensures
        spec_train(m, docs1) == spec_train(m, docs2),
    decreases docs1.len(),
{
    broadcast use vstd::seq_lib::group_to_multiset_ensures;

    if docs1.len() == 0 {
        assert(docs2.to_multiset().len() == 0);
        assert(docs1 =~= Seq::<News>::empty());
        assert(docs2 =~= Seq::<News>::empty());
    } else {
        let d = docs1[0];
        assert(docs1.contains(d));
        assert(docs1.to_multiset().count(d) > 0);
        assert(docs2.contains(d));
        let j = docs2.index_of(d);
        assert(0 <= j < docs2.len() && docs2[j] == d);
        assert(labels_ok(docs2, m.len() as int)) by {
            assert forall|i: int|
                0 <= i < docs2.len() implies 1 <= (#[trigger] docs2[i]).class_index as int
                <= m.len() by {
                assert(docs2.contains(docs2[i]));
                assert(docs2.to_multiset().count(docs2[i]) > 0);
                assert(docs1.contains(docs2[i]));
                let ix = choose|ix: int| 0 <= ix < docs1.len() && docs1[ix] == docs2[i];
                assert(1 <= docs1[ix].class_index as int <= m.len());
            }
        }
        lemma_train_pull(m, docs2, j);
        assert(docs1.drop_first() =~= docs1.remove(0));
        assert(docs1.remove(0).to_multiset() =~= docs1.to_multiset().remove(d));
        assert(docs2.remove(j).to_multiset() =~= docs2.to_multiset().remove(d));
        assert(docs1.drop_first().to_multiset() == docs2.remove(j).to_multiset());
        assert(forall|i: int|
            0 <= i < docs1.drop_first().len() ==> #[trigger] docs1.drop_first()[i] == docs1[i + 1]);
        lemma_train_commutative(train_step(m, d), docs1.drop_first(), docs2.remove(j));
    }
}

/// Training never shrinks a class's totals or document count.
pub proof fn lemma_train_monotone(m: Seq<ClassView>, docs: Seq<News>, c: int)
    requires
        0 <= c < m.len(),
        labels_ok(docs, m.len() as int),
    ensures
        spec_train(m, docs).len() == m.len(),
        m[c].total <= spec_train(m, docs)[c].total,
        m[c].docs <= spec_train(m, docs)[c].docs,
    decreases docs.len(),
{
    if docs.len() > 0 {
        let l = docs[0].class_index as int - 1;
        let m2 = m.update(l, train_doc(m[l], docs[0].toks()));
        assert(labels_ok(docs.drop_first(), m2.len() as int)) by {
            assert(forall|i: int|
                0 <= i < docs.drop_first().len() ==> #[trigger] docs.drop_first()[i] == docs[i
                    + 1]);
        }
        lemma_train_monotone(m2, docs.drop_first(), c);
        assert(m[c].total <= m2[c].total);
        assert(m[c].docs <= m2[c].docs);
    }
}

/// How many of `docs` carry the (0-indexed) label `c`.
pub open spec fn count_label(docs: Seq<News>, c: int) -> nat
    decreases docs.len(),
{
    if docs.len() == 0 {
        0
    } else {
        (if docs[0].class_index as int - 1 == c {
            1nat
        } else {
            0nat
        }) + count_label(docs.drop_first(), c)
    }
}

/// How many tokens the documents of `docs` labeled `c` contribute in all.
pub open spec fn words_added(docs: Seq<News>, c: int) -> nat
    decreases docs.len(),
{
    if docs.len() == 0 {
        0
    } else {
        (if docs[0].class_index as int - 1 == c {
            docs[0].toks().len()
        } else {
            0nat
        }) + words_added(docs.drop_first(), c)
    }
}

/// After training, each class's document count has grown by exactly the
/// number of documents labeled with it, and its total word count by exactly
/// the number of tokens those documents contribute.
pub proof fn lemma_training_counts(m: Seq<ClassView>, docs: Seq<News>, c: int)
    requires
        0 <= c < m.len(),
        labels_ok(docs, m.len() as int),
    ensures
        spec_train(m, docs)[c].docs == m[c].docs + count_label(docs, c),
        spec_train(m, docs)[c].total == m[c].total + words_added(docs, c),
    decreases docs.len(),
{
    if docs.len() > 0 {
        let l = docs[0].class_index as int - 1;
        let m2 = m.update(l, train_doc(m[l], docs[0].toks()));
        assert(labels_ok(docs.drop_first(), m2.len() as int)) by {
            assert(forall|i: int|
                0 <= i < docs.drop_first().len() ==> #[trigger] docs.drop_first()[i] == docs[i
                    + 1]);
        }
        lemma_training_counts(m2, docs.drop_first(), c);
    }
}

/// A trained (or in-training) model: display names and statistics, one per
/// class, index-aligned.
pub struct Model {
    pub class_names: Vec<String>,
    pub classes: Vec<ClassStats>,
}

impl Model {
    /// As many names as classes, and each class's statistics well-formed.
    pub open spec fn wf(&self) -> bool {
        &&& self.class_names@.len() == self.classes@.len()
        &&& forall|i: int| 0 <= i < self.classes@.len() ==> (#[trigger] self.classes@[i]).wf()
    }

    /// The per-class mathematical contents, index-aligned with the names.
    pub open spec fn views(&self) -> Seq<ClassView> {
        self.classes@.map_values(|c: ClassStats| c.stats())
    }

    /// An untrained model with one zeroed statistics slot per class name.
    pub fn empty(class_names: Vec<String>) -> (r: Model)
        ensures
            r.wf(),
            r.class_names == class_names,
            r.views().len() == class_names@.len(),
            forall|c: int|
                0 <= c < r.views().len() ==> (#[trigger] r.views()[c]) == (ClassView {
                    words: Map::<Seq<char>, nat>::empty(),
                    total: 0nat,
                    docs: 0nat,
                }),
    {
        let n = class_names.len();
        let mut classes: Vec<ClassStats> = Vec::new();
        let mut i: usize = 0;
        while i < n
            invariant
                i <= n,
                classes@.len() == i,
                forall|c: int| 0 <= c < i ==> (#[trigger] classes@[c]).wf(),
                forall|c: int|
                    0 <= c < i ==> (#[trigger] classes@[c]).stats() == (ClassView {
                        words: Map::<Seq<char>, nat>::empty(),
                        total: 0nat,
                        docs: 0nat,
                    }),
            decreases n - i,
        {
            classes.push(ClassStats::new());
            i = i + 1;
        }
        Model { class_names, classes }
    }

    /// Absorb a batch of labeled documents into the per-class statistics.
    ///
    /// Every label must name one of the model's classes, and the resulting
    /// counts must fit the machine word they are stored in.
    #[verifier::loop_isolation(false)]
    pub fn train(&mut self, news: Vec<News>)
        requires
            old(self).wf(),
            labels_ok(news@, old(self).classes@.len() as int),
            forall|c: int|
                0 <= c < old(self).views().len() ==> (#[trigger] spec_train(
                    old(self).views(),
                    news@,
                )[c]).total <= u64::MAX && spec_train(old(self).views(), news@)[c].docs
                    <= u64::MAX,
        ensures
            final(self).wf(),
            final(self).views() == spec_train(old(self).views(), news@),
            final(self).class_names == old(self).class_names,
    {
        let n = news.len();
        let mut i: usize = 0;
        proof {
            assert(news@.skip(0) =~= news@);
        }
        while i < n
            invariant
                i <= n,
                self.wf(),
                self.classes@.len() == old(self).classes@.len(),
                self.class_names == old(self).class_names,
                spec_train(self.views(), news@.skip(i as int)) == spec_train(
                    old(self).views(),
                    news@,
                ),
            decreases n - i,
        {
            let ghost m_before = self.views();
            let ghost rest = news@.skip(i as int);
            let l = (news[i].class_index - 1) as usize;
            let words = news[i].words();
            let ghost toks = news@[i as int].toks();
            let ghost m_next = m_before.update(l as int, train_doc(m_before[l as int], toks));
            proof {
                assert(rest[0] == news@[i as int]);
                assert(rest.drop_first() =~= news@.skip(i as int + 1));
                assert(spec_train(m_before, rest) == spec_train(
                    m_next,
                    news@.skip(i as int + 1),
                ));
                assert(labels_ok(news@.skip(i as int + 1), m_next.len() as int)) by {
                    assert(forall|k: int|
                        0 <= k < news@.skip(i as int + 1).len() ==> #[trigger] news@.skip(
                            i as int + 1,
                        )[k] == news@[i + 1 + k]);
                }
                lemma_train_monotone(m_next, news@.skip(i as int + 1), l as int);
                assert(m_next[l as int].total <= u64::MAX);
                assert(m_next[l as int].docs <= u64::MAX);
            }
            let dc = self.classes[l].document_count;
            self.classes[l].document_count = dc + 1;
            let ghost start_total = self.classes@[l as int].total_word_count as nat;
            let ghost start_words = self.classes@[l as int].word_count.view_map();
            let ghost target_words = add_tokens(start_words, toks);
            let m = words.len();
            let mut j: usize = 0;
            proof {
                assert(words.deep_view().skip(0) =~= words.deep_view());
            }
            while j < m
                invariant
                    j <= m,
                    self.classes@.len() == old(self).classes@.len(),
                    self.class_names == old(self).class_names,
                    forall|c: int|
                        0 <= c < self.classes@.len() && c != l as int
                            ==> (#[trigger] self.classes@[c]).stats() == m_before[c],
                    forall|c: int| 0 <= c < self.classes@.len() ==> (#[trigger] self.classes@[c]).wf(),
                    self.classes@[l as int].document_count as nat == m_before[l as int].docs + 1,
                    self.classes@[l as int].total_word_count as nat == start_total + j,
                    add_tokens(
                        self.classes@[l as int].word_count.view_map(),
                        words.deep_view().skip(j as int),
                    ) == target_words,
                decreases m - j,
            {
                proof {
                    assert(words.deep_view().skip(j as int)[0] == words.deep_view()[j as int]);
                    assert(words.deep_view().skip(j as int).drop_first() =~= words.deep_view().skip(
                        j as int + 1,
                    ));
                    assert(words@[j as int]@ =~= words.deep_view()[j as int]);
                    lemma_count_le_total(
                        self.classes@[l as int].word_count.entries@,
                        words.deep_view()[j as int],
                    );
                }
                let t = self.classes[l].total_word_count;
                self.classes[l].total_word_count = t + 1;
                self.classes[l].word_count.inc(&words[j]);
                j = j + 1;
            }
            proof {
                assert(words.deep_view().skip(m as int) =~= Seq::<Seq<char>>::empty());
                assert(self.classes@[l as int].word_count.view_map() == target_words);
                assert(self.views() =~= m_next);
            }
            i = i + 1;
        }
        proof {
            assert(news@.skip(n as int) =~= Seq::<News>::empty());
        }
    }
}

} // verus!
