//! Maximum a-posteriori classification over a trained model.
//!
//! The score of class `c` for a document with tokens `t_1 .. t_n` is the
//! rational number
//!
//! ```text
//!   docs(c)          count(c, t_1)         count(c, t_n)
//!   -------    *     -------------  * .. * -------------
//!   total docs         total(c)              total(c)
//! ```
//!
//! the class prior times the per-token likelihoods. The winner is the class
//! with the strictly greatest score under a scan seeded with zero: a class
//! wins only with a positive score, ties keep the lowest index, and a class
//! whose likelihood is undefined (no words observed, `total(c) == 0`, with a
//! non-empty document) is never selected. Comparisons are exact: both sides
//! are brought over a common denominator and compared as big naturals, so
//! a token unseen in a class collapses that class's score to zero exactly as
//! the real-number definition demands.

use vstd::prelude::*;

use crate::bignum::BigNat;
use crate::model::{ClassView, Model, News};
use crate::wordmap::count_of;

verus! {

use vstd::arithmetic::power::pow;

/// The product of the counts class `w` records for each token of `toks`.
pub open spec fn prod_counts(w: Map<Seq<char>, nat>, toks: Seq<Seq<char>>) -> int
    decreases toks.len(),
{
    if toks.len() == 0 {
        1
    } else {
        count_of(w, toks[0]) * prod_counts(w, toks.drop_first())
    }
}

/// The numerator of a class's score: document count times token counts.
pub open spec fn score_num(cv: ClassView, toks: Seq<Seq<char>>) -> int {
    cv.docs * prod_counts(cv.words, toks)
}

/// The total number of training documents over all classes.
pub open spec fn sum_docs(m: Seq<ClassView>) -> nat
    decreases m.len(),
{
    if m.len() == 0 {
        0
    } else {
        sum_docs(m.drop_first()) + m[0].docs
    }
}

/// The denominator of class `c`'s score.
pub open spec fn score_den(m: Seq<ClassView>, c: int, toks: Seq<Seq<char>>) -> int {
    sum_docs(m) * pow(m[c].total as int, toks.len())
}

/// Whether class `c`'s score is a defined rational number: an empty document
/// needs no word likelihoods, otherwise the class must have observed words.
pub open spec fn candidate(cv: ClassView, toks: Seq<Seq<char>>) -> bool {
    toks.len() == 0 || cv.total > 0
}

/// Class `c` scores strictly higher than class `d`: the exact comparison of
/// the two rationals by cross-multiplication.
pub open spec fn score_gt(m: Seq<ClassView>, c: int, d: int, toks: Seq<Seq<char>>) -> bool {
    score_num(m[c], toks) * score_den(m, d, toks) > score_num(m[d], toks) * score_den(m, c, toks)
}

/// The best class among the first `n`, scanning upward from class 0 with an
/// initial maximum of zero: a candidate class becomes the maximum when its
/// score strictly exceeds the running maximum, so ties keep the lower index
/// and `None` means no class scored above zero.
pub open spec fn spec_best(m: Seq<ClassView>, toks: Seq<Seq<char>>, n: int) -> Option<int>
    decreases n,
{
    if n <= 0 {
        None
    } else {
        let prev = spec_best(m, toks, n - 1);
        let c = n - 1;
        if !candidate(m[c], toks) {
            prev
        } else {
            match prev {
                None => if score_num(m[c], toks) > 0 {
                    Some(c)
                } else {
                    None
                },
                Some(b) => if score_gt(m, c, b, toks) {
                    Some(c)
                } else {
                    Some(b)
                },
            }
        }
    }
}

/// The class `classify` returns: the best-scoring class, or class 0 when no
/// class scores above zero.
pub open spec fn spec_classify(m: Seq<ClassView>, toks: Seq<Seq<char>>) -> int {
    match spec_best(m, toks, m.len() as int) {
        Some(b) => b,
        None => 0,
    }
}

proof fn lemma_mul_assoc(a: int, b: int, c: int)
    by (nonlinear_arith)
    ensures
        a * (b * c) == (a * b) * c,
{
}

/// Token-count products are non-negative.
proof fn lemma_prod_nonneg(w: Map<Seq<char>, nat>, toks: Seq<Seq<char>>)
    ensures
        prod_counts(w, toks) >= 0,
    decreases toks.len(),
{
    if toks.len() > 0 {
        lemma_prod_nonneg(w, toks.drop_first());
        assert(count_of(w, toks[0]) * prod_counts(w, toks.drop_first()) >= 0) by (nonlinear_arith)
            requires
                count_of(w, toks[0]) >= 0,
                prod_counts(w, toks.drop_first()) >= 0,
        ;
    }
}

/// A score numerator is non-negative, and positive only with a positive
/// document count.
proof fn lemma_score_num_nonneg(cv: ClassView, toks: Seq<Seq<char>>)
    ensures
        score_num(cv, toks) >= 0,
        score_num(cv, toks) > 0 ==> cv.docs > 0,
{
    lemma_prod_nonneg(cv.words, toks);
    assert(cv.docs * prod_counts(cv.words, toks) >= 0 && (cv.docs == 0 ==> cv.docs * prod_counts(
        cv.words,
        toks,
    ) == 0)) by (nonlinear_arith)
        requires
            cv.docs >= 0,
            prod_counts(cv.words, toks) >= 0,
    ;
}

/// No class has more documents than all classes together.
proof fn lemma_docs_le_sum(m: Seq<ClassView>, c: int)
    requires
        0 <= c < m.len(),
    ensures
        m[c].docs <= sum_docs(m),
    decreases m.len(),
{
    if c > 0 {
        let t = m.drop_first();
        assert(t[c - 1] == m[c]);
        lemma_docs_le_sum(t, c - 1);
    }
}

/// With at least one training document, the exact rational comparison of two
/// scores reduces to comparing the cross-multiplied numerators.
proof fn lemma_score_gt_iff(m: Seq<ClassView>, c: int, d: int, toks: Seq<Seq<char>>)
    requires
        0 <= c < m.len(),
        0 <= d < m.len(),
        sum_docs(m) > 0,
    ensures
        score_gt(m, c, d, toks) <==> score_num(m[c], toks) * pow(m[d].total as int, toks.len())
            > score_num(m[d], toks) * pow(m[c].total as int, toks.len()),
{
    let s = sum_docs(m) as int;
    let nc = score_num(m[c], toks);
    let nd = score_num(m[d], toks);
    let pc = pow(m[c].total as int, toks.len());
    let pd = pow(m[d].total as int, toks.len());
    assert(nc * (s * pd) == s * (nc * pd)) by (nonlinear_arith);
    assert(nd * (s * pc) == s * (nd * pc)) by (nonlinear_arith);
    assert((s * (nc * pd) > s * (nd * pc)) <==> (nc * pd > nd * pc)) by (nonlinear_arith)
        requires
            s > 0,
    ;
}

/// The zero-frequency collapse: one token a class has never seen zeroes that
/// class's whole score, whatever the other evidence.
pub proof fn lemma_unseen_token_zeroes_score(cv: ClassView, toks: Seq<Seq<char>>, i: int)
    requires
        0 <= i < toks.len(),
        !cv.words.dom().contains(toks[i]),
    ensures
        score_num(cv, toks) == 0,
{
    lemma_prod_zero(cv.words, toks, i);
    assert(cv.docs * 0 == 0) by (nonlinear_arith);
}

proof fn lemma_prod_zero(w: Map<Seq<char>, nat>, toks: Seq<Seq<char>>, i: int)
    requires
        0 <= i < toks.len(),
        count_of(w, toks[i]) == 0,
    ensures
        prod_counts(w, toks) == 0,
    decreases toks.len(),
{
    if i == 0 {
        assert(0 * prod_counts(w, toks.drop_first()) == 0) by (nonlinear_arith);
    } else {
        assert(toks.drop_first()[i - 1] == toks[i]);
        lemma_prod_zero(w, toks.drop_first(), i - 1);
        assert(count_of(w, toks[0]) * 0 == 0) by (nonlinear_arith);
    }
}

/// A score denominator is positive whenever the class is a candidate and at
/// least one training document exists.
proof fn lemma_den_pos(m: Seq<ClassView>, c: int, toks: Seq<Seq<char>>)
    requires
        0 <= c < m.len(),
        candidate(m[c], toks),
        sum_docs(m) > 0,
    ensures
        score_den(m, c, toks) > 0,
{
    if toks.len() == 0 {
        vstd::arithmetic::power::lemma_pow0(m[c].total as int);
    } else {
        vstd::arithmetic::power::lemma_pow_positive(m[c].total as int, toks.len());
    }
    assert(sum_docs(m) as int * pow(m[c].total as int, toks.len()) > 0) by (nonlinear_arith)
        requires
            sum_docs(m) > 0,
            pow(m[c].total as int, toks.len()) > 0,
    ;
}

/// Transitivity of the exact rational comparison: if `c` beats `b` and `e`
/// does not, then `c` beats `e` (all denominators positive).
proof fn lemma_rat_gt_trans(nc: int, dc: int, nb: int, db: int, ne: int, de: int)
    requires
        db > 0,
        dc > 0,
        de > 0,
        nc * db > nb * dc,
        ne * db <= nb * de,
    ensures
        nc * de > ne * dc,
{
    assert((nc * db) * de > (nb * dc) * de) by (nonlinear_arith)
        requires
            de > 0,
            nc * db > nb * dc,
    ;
    assert((ne * db) * dc <= (nb * de) * dc) by (nonlinear_arith)
        requires
            dc > 0,
            ne * db <= nb * de,
    ;
    assert((nb * dc) * de == (nb * de) * dc) by (nonlinear_arith);
    assert((nc * db) * de == (nc * de) * db) by (nonlinear_arith);
    assert((ne * db) * dc == (ne * dc) * db) by (nonlinear_arith);
    assert((nc * de) * db > (ne * dc) * db);
    assert(nc * de > ne * dc) by (nonlinear_arith)
        requires
            db > 0,
            (nc * de) * db > (ne * dc) * db,
    ;
}

/// A winner under the comparison has a positive score numerator.
proof fn lemma_gt_winner_pos(m: Seq<ClassView>, c: int, d: int, toks: Seq<Seq<char>>)
    requires
        0 <= c < m.len(),
        0 <= d < m.len(),
        candidate(m[c], toks),
        candidate(m[d], toks),
        sum_docs(m) > 0,
        score_gt(m, c, d, toks),
    ensures
        score_num(m[c], toks) > 0,
{
    lemma_den_pos(m, c, toks);
    lemma_den_pos(m, d, toks);
    lemma_score_num_nonneg(m[d], toks);
    assert(score_num(m[d], toks) * score_den(m, c, toks) >= 0) by (nonlinear_arith)
        requires
            score_num(m[d], toks) >= 0,
            score_den(m, c, toks) > 0,
    ;
    assert(score_num(m[c], toks) > 0) by (nonlinear_arith)
        requires
            score_num(m[c], toks) * score_den(m, d, toks) > 0,
            score_den(m, d, toks) > 0,
    ;
}

/// The scan really selects the class with the strictly greatest score: the
/// winner is a candidate with a positive score that strictly beats every
/// earlier candidate and is beaten by no later one (so equal scores keep the
/// lowest index); when it selects nothing, every candidate's score is zero.
pub proof fn lemma_best_is_strict_max(m: Seq<ClassView>, toks: Seq<Seq<char>>, n: int)
    requires
        0 <= n <= m.len(),
    ensures
        match spec_best(m, toks, n) {
            Some(b) => {
                &&& 0 <= b < n
                &&& candidate(m[b], toks)
                &&& score_num(m[b], toks) > 0
                &&& forall|c: int|
                    0 <= c < b && candidate(m[c], toks) ==> score_gt(m, b, c, toks)
                &&& forall|c: int|
                    b < c < n && candidate(m[c], toks) ==> !score_gt(m, c, b, toks)
            },
            None => forall|c: int|
                0 <= c < n && candidate(m[c], toks) ==> score_num(m[c], toks) == 0,
        },
    decreases n,
{
    if n > 0 {
        lemma_best_is_strict_max(m, toks, n - 1);
        let prev = spec_best(m, toks, n - 1);
        let c = n - 1;
        if candidate(m[c], toks) {
            match prev {
                None => {
                    lemma_score_num_nonneg(m[c], toks);
                    if score_num(m[c], toks) > 0 {
                        lemma_docs_le_sum(m, c);
                        assert(sum_docs(m) > 0);
                        lemma_den_pos(m, c, toks);
                        assert forall|e: int|
                            0 <= e < c && candidate(m[e], toks) implies score_gt(
                            m,
                            c,
                            e,
                            toks,
                        ) by {
                            lemma_den_pos(m, e, toks);
                            assert(score_num(m[e], toks) == 0);
                            assert(score_num(m[e], toks) * score_den(m, c, toks) == 0)
                                by (nonlinear_arith)
                                requires
                                    score_num(m[e], toks) == 0,
                            ;
                            assert(score_num(m[c], toks) * score_den(m, e, toks) > 0)
                                by (nonlinear_arith)
                                requires
                                    score_num(m[c], toks) > 0,
                                    score_den(m, e, toks) > 0,
                            ;
                        }
                    }
                },
                Some(b) => {
                    lemma_score_num_nonneg(m[b], toks);
                    lemma_docs_le_sum(m, b);
                    assert(sum_docs(m) > 0);
                    lemma_den_pos(m, b, toks);
                    lemma_den_pos(m, c, toks);
                    if score_gt(m, c, b, toks) {
                        lemma_gt_winner_pos(m, c, b, toks);
                        assert forall|e: int|
                            0 <= e < c && candidate(m[e], toks) implies score_gt(
                            m,
                            c,
                            e,
                            toks,
                        ) by {
                            if e != b {
                                lemma_den_pos(m, e, toks);
                                if e < b {
                                    assert(score_gt(m, b, e, toks));
                                    lemma_rat_gt_trans(
                                        score_num(m[c], toks),
                                        score_den(m, c, toks),
                                        score_num(m[b], toks),
                                        score_den(m, b, toks),
                                        score_num(m[e], toks),
                                        score_den(m, e, toks),
                                    );
                                } else {
                                    assert(!score_gt(m, e, b, toks));
                                    lemma_rat_gt_trans(
                                        score_num(m[c], toks),
                                        score_den(m, c, toks),
                                        score_num(m[b], toks),
                                        score_den(m, b, toks),
                                        score_num(m[e], toks),
                                        score_den(m, e, toks),
                                    );
                                }
                            }
                        }
                    }
                },
            }
        }
    }
}

impl Model {
    /// The exact score numerator of class `c` for the given token list.
    fn score_numerator(&self, words: &Vec<Vec<char>>, c: usize) -> (r: BigNat)
        requires
            self.wf(),
            c < self.classes@.len(),
        ensures
            r.val() as int == score_num(self.views()[c as int], words.deep_view()),
    {
        let ghost toks = words.deep_view();
        let ghost cv = self.views()[c as int];
        let mut num = BigNat::from_u64(self.classes[c].document_count);
        let n = words.len();
        let mut j: usize = 0;
        proof {
            assert(toks.skip(0) =~= toks);
        }
        while j < n
            invariant
                j <= n,
                n == toks.len(),
                self.wf(),
                c < self.classes@.len(),
                cv == self.views()[c as int],
                toks == words.deep_view(),
                num.val() * prod_counts(cv.words, toks.skip(j as int)) == score_num(cv, toks),
            decreases n - j,
        {
            proof {
                assert(toks.skip(j as int)[0] == toks[j as int]);
                assert(toks.skip(j as int).drop_first() =~= toks.skip(j as int + 1));
                assert(words@[j as int]@ =~= toks[j as int]);
            }
            let cnt = self.classes[c].word_count.get(&words[j]);
            let ghost old_num = num.val();
            num = num.times(cnt);
            proof {
                lemma_mul_assoc(
                    old_num as int,
                    cnt as int,
                    prod_counts(cv.words, toks.skip(j as int + 1)),
                );
            }
            j = j + 1;
        }
        proof {
            assert(toks.skip(n as int) =~= Seq::<Seq<char>>::empty());
            assert(num.val() * 1 == num.val()) by (nonlinear_arith);
        }
        num
    }

    /// Whether class `c` assigns the document a score of exactly zero, as an
    /// unseen token or an untrained class does.
    pub fn class_score_is_zero(&self, document: &News, c: usize) -> (r: bool)
        requires
            self.wf(),
            c < self.classes@.len(),
        ensures
            r == (score_num(self.views()[c as int], document.toks()) == 0),
    {
        let words = document.words();
        let num = self.score_numerator(&words, c);
        num.is_zero()
    }

    /// Classify a document: the class with the strictly greatest posterior
    /// score (ties keep the lowest index; class 0 when every score is zero or
    /// undefined), together with that class's exact score numerator (zero
    /// when no class was selected).
    ///
    /// The result is a function of the trained statistics and the document's
    /// tokens alone.
    #[verifier::loop_isolation(false)]
    pub fn classify(&self, document: &News) -> (r: (usize, BigNat))
        requires
            self.wf(),
            self.classes@.len() > 0,
        ensures
            r.0 as int == spec_classify(self.views(), document.toks()),
            r.0 < self.classes@.len(),
            match spec_best(self.views(), document.toks(), self.views().len() as int) {
                Some(b) => r.1.val() as int == score_num(self.views()[b], document.toks()),
                None => r.1.val() == 0,
            },
    {
        let words = document.words();
        let nw = words.len();
        let ghost toks = document.toks();
        let ghost m = self.views();
        let ncls = self.classes.len();
        let mut best: usize = 0;
        let mut has_best = false;
        let mut best_num = BigNat::from_u64(0);
        let mut best_twc: u64 = 0;
        let mut c: usize = 0;
        while c < ncls
            invariant
                c <= ncls,
                has_best == (spec_best(m, toks, c as int) is Some),
                has_best ==> {
                    &&& spec_best(m, toks, c as int) == Some(best as int)
                    &&& best < c
                    &&& best_num.val() as int == score_num(m[best as int], toks)
                    &&& best_num.val() > 0
                    &&& best_twc as int == m[best as int].total
                },
                !has_best ==> best_num.val() == 0 && best == 0,
            decreases ncls - c,
        {
            let twc = self.classes[c].total_word_count;
            if nw > 0 && twc == 0 {
                proof {
                    assert(!candidate(m[c as int], toks));
                    assert(spec_best(m, toks, c as int + 1) == spec_best(m, toks, c as int));
                }
            } else {
                proof {
                    assert(candidate(m[c as int], toks));
                }
                let num = self.score_numerator(&words, c);
                proof {
                    lemma_score_num_nonneg(m[c as int], toks);
                }
                if !has_best {
                    if !num.is_zero() {
                        best = c;
                        has_best = true;
                        best_num = num;
                        best_twc = twc;
                        proof {
                            assert(spec_best(m, toks, c as int + 1) == Some(c as int));
                        }
                    } else {
                        proof {
                            lemma_score_num_nonneg(m[c as int], toks);
                            assert(spec_best(m, toks, c as int + 1) is None);
                        }
                    }
                } else {
                    proof {
                        lemma_score_num_nonneg(m[best as int], toks);
                        lemma_docs_le_sum(m, best as int);
                        assert(sum_docs(m) > 0);
                        lemma_score_gt_iff(m, c as int, best as int, toks);
                    }
                    let left = times_pow(&num, best_twc, nw);
                    let right = times_pow(&best_num, twc, nw);
                    if right.lt(&left) {
                        proof {
                            assert(score_gt(m, c as int, best as int, toks));
                            assert(right.val() >= 0);
                            assert(num.val() as int * pow(best_twc as int, nw as nat) > 0);
                            assert(num.val() > 0) by (nonlinear_arith)
                                requires
                                    num.val() as int * pow(best_twc as int, nw as nat) > 0,
                                    num.val() >= 0,
                            ;
                            assert(spec_best(m, toks, c as int + 1) == Some(c as int));
                        }
                        best = c;
                        best_num = num;
                        best_twc = twc;
                    } else {
                        proof {
                            assert(!score_gt(m, c as int, best as int, toks));
                            assert(spec_best(m, toks, c as int + 1) == Some(best as int));
                        }
                    }
                }
            }
            c = c + 1;
        }
        (best, best_num)
    }
}

/// `x` times `f` to the `n`.
fn times_pow(x: &BigNat, f: u64, n: usize) -> (r: BigNat)
    ensures
        r.val() as int == x.val() * pow(f as int, n as nat),
{
    let mut r = BigNat { limbs: crate::bignum::pad_to(&x.limbs, x.limbs.len()) };
    let mut j: usize = 0;
    proof {
        vstd::arithmetic::power::lemma_pow0(f as int);
        assert(x.val() * 1 == x.val()) by (nonlinear_arith);
    }
    while j < n
        invariant
            j <= n,
            r.val() as int == x.val() * pow(f as int, j as nat),
        decreases n - j,
    {
        let ghost old_val = r.val();
        r = r.times(f);
        proof {
            assert(pow(f as int, (j + 1) as nat) == (f as int) * pow(f as int, j as nat)) by {
                vstd::arithmetic::power::lemma_pow_adds(f as int, 1nat, j as nat);
                vstd::arithmetic::power::lemma_pow1(f as int);
            }
            assert((x.val() * pow(f as int, j as nat)) * f == x.val() * ((f as int) * pow(
                f as int,
                j as nat,
            ))) by (nonlinear_arith);
        }
        j = j + 1;
    }
    r
}

} // verus!
