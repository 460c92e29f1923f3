//! Evaluation of a trained model over a held-out document set: the confusion
//! matrix and the precision figures derived from it.
//!
//! Precision values are exact fractions, returned as numerator/denominator
//! pairs with the numerator at most the denominator. A precision whose
//! denominator would be zero (a class never predicted, or an empty held-out
//! set) is reported as `None` rather than as an arbitrary number.

use vstd::prelude::*;

use crate::classify::spec_classify;
use crate::model::{labels_ok, ClassView, Model, News};

verus! {

/// The sum of one row of counts.
pub open spec fn row_sum(s: Seq<u64>) -> nat
    decreases s.len(),
{
    if s.len() == 0 {
        0
    } else {
        (s[0] + row_sum(s.drop_first())) as nat
    }
}

/// The sum of every cell of a matrix.
pub open spec fn total_cells(mat: Seq<Seq<u64>>) -> nat
    decreases mat.len(),
{
    if mat.len() == 0 {
        0
    } else {
        row_sum(mat[0]) + total_cells(mat.drop_first())
    }
}

/// The sum of the first `k` diagonal cells.
pub open spec fn diag_sum(mat: Seq<Seq<u64>>, k: nat) -> nat
    decreases k,
{
    if k == 0 {
        0
    } else {
        (diag_sum(mat, (k - 1) as nat) + mat[k - 1][k - 1]) as nat
    }
}

/// How many documents of `docs` the model maps to predicted class `p` while
/// their own label names class `a`.
pub open spec fn cm_cell(m: Seq<ClassView>, docs: Seq<News>, p: int, a: int) -> nat
    decreases docs.len(),
{
    if docs.len() == 0 {
        0
    } else {
        (if spec_classify(m, docs[0].toks()) == p && docs[0].class_index as int - 1 == a {
            1nat
        } else {
            0nat
        }) + cm_cell(m, docs.drop_first(), p, a)
    }
}

/// Changing one cell changes the row sum by the difference.
proof fn lemma_row_sum_update(s: Seq<u64>, i: int, v: u64)
    requires
        0 <= i < s.len(),
    ensures
        row_sum(s.update(i, v)) + s[i] == row_sum(s) + v,
    decreases s.len(),
{
    let s2 = s.update(i, v);
    if i == 0 {
        assert(s2.drop_first() =~= s.drop_first());
    } else {
        assert(s2.drop_first() =~= s.drop_first().update(i - 1, v));
        lemma_row_sum_update(s.drop_first(), i - 1, v);
    }
}

/// Changing one row changes the matrix total by the difference of row sums.
proof fn lemma_total_update(mat: Seq<Seq<u64>>, p: int, row: Seq<u64>)
    requires
        0 <= p < mat.len(),
    ensures
        total_cells(mat.update(p, row)) + row_sum(mat[p]) == total_cells(mat) + row_sum(row),
    decreases mat.len(),
{
    let m2 = mat.update(p, row);
    if p == 0 {
        assert(m2.drop_first() =~= mat.drop_first());
    } else {
        assert(m2.drop_first() =~= mat.drop_first().update(p - 1, row));
        lemma_total_update(mat.drop_first(), p - 1, row);
    }
}

/// Each cell is at most its row's sum.
pub proof fn lemma_cell_le_row(s: Seq<u64>, i: int)
    requires
        0 <= i < s.len(),
    ensures
        s[i] <= row_sum(s),
    decreases s.len(),
{
    if i > 0 {
        lemma_cell_le_row(s.drop_first(), i - 1);
    }
}

/// Each row's sum is at most the matrix total.
pub proof fn lemma_row_le_total(mat: Seq<Seq<u64>>, p: int)
    requires
        0 <= p < mat.len(),
    ensures
        row_sum(mat[p]) <= total_cells(mat),
    decreases mat.len(),
{
    if p > 0 {
        lemma_row_le_total(mat.drop_first(), p - 1);
    }
}

/// The first `k` diagonal cells together never exceed the matrix total.
proof fn lemma_diag_le_total(mat: Seq<Seq<u64>>, k: nat)
    requires
        k <= mat.len(),
        forall|p: int| 0 <= p < k ==> p < (#[trigger] mat[p]).len(),
    ensures
        diag_sum(mat, k) <= total_cells(mat.take(k as int)),
        total_cells(mat.take(k as int)) <= total_cells(mat),
    decreases k,
{
    if k == 0 {
        assert(total_cells(mat.take(0)) == 0);
        lemma_total_prefix_le(mat, 0);
    } else {
        lemma_diag_le_total(mat, (k - 1) as nat);
        lemma_take_snoc_total(mat, (k - 1) as int);
        lemma_cell_le_row(mat[k - 1], (k - 1) as int);
        lemma_total_prefix_le(mat, k as int);
    }
}

/// Extending a prefix by one row adds that row's sum.
proof fn lemma_take_snoc_total(mat: Seq<Seq<u64>>, i: int)
    requires
        0 <= i < mat.len(),
    ensures
        total_cells(mat.take(i + 1)) == total_cells(mat.take(i)) + row_sum(mat[i]),
    decreases i,
{
    if i == 0 {
        assert(mat.take(1).drop_first() =~= mat.take(0));
        assert(mat.take(1)[0] == mat[0]);
    } else {
        let t = mat.drop_first();
        lemma_take_snoc_total(t, i - 1);
        assert(mat.take(i + 1).drop_first() =~= t.take(i));
        assert(mat.take(i).drop_first() =~= t.take(i - 1));
        assert(mat.take(i + 1)[0] == mat[0]);
        assert(mat.take(i)[0] == mat[0]);
        assert(t[i - 1] == mat[i]);
    }
}

/// A prefix of rows never sums to more than the whole matrix.
proof fn lemma_total_prefix_le(mat: Seq<Seq<u64>>, i: int)
    requires
        0 <= i <= mat.len(),
    ensures
        total_cells(mat.take(i)) <= total_cells(mat),
    decreases mat.len() - i,
{
    if i == mat.len() {
        assert(mat.take(i) =~= mat);
    } else {
        lemma_take_snoc_total(mat, i);
        lemma_total_prefix_le(mat, i + 1);
    }
}

/// The outcome of evaluating a model: a square predicted-by-actual count
/// matrix, `confusion[p][a]` counting the held-out documents predicted as
/// class `p` whose label was class `a`.
pub struct Evaluation {
    pub confusion: Vec<Vec<u64>>,
}

impl Evaluation {
    /// The number of classes the matrix covers.
    pub open spec fn n(&self) -> nat {
        self.confusion@.len()
    }

    /// The matrix is square.
    pub open spec fn wf(&self) -> bool {
        forall|p: int| 0 <= p < self.n() ==> (#[trigger] self.confusion@[p])@.len() == self.n()
    }

    /// One cell of the matrix.
    pub open spec fn cell(&self, p: int, a: int) -> nat {
        self.confusion@[p]@[a] as nat
    }

    /// The matrix as a sequence of rows.
    pub open spec fn rows(&self) -> Seq<Seq<u64>> {
        self.confusion@.map_values(|r: Vec<u64>| r@)
    }

    /// The precision of class `c`: true positives over all predictions made
    /// for `c`, as the exact fraction (numerator, denominator). `None` when
    /// the class was never predicted, which leaves precision undefined.
    pub fn precision(&self, c: usize) -> (r: Option<(u64, u64)>)
        requires
            self.wf(),
            c < self.n(),
            row_sum(self.confusion@[c as int]@) <= u64::MAX,
        ensures
            match r {
                Some(f) => {
                    &&& f.0 == self.cell(c as int, c as int)
                    &&& f.1 == row_sum(self.confusion@[c as int]@)
                    &&& f.0 <= f.1
                    &&& f.1 > 0
                },
                None => row_sum(self.confusion@[c as int]@) == 0,
            },
    {
        let row = sum_row(&self.confusion[c]);
        if row == 0 {
            None
        } else {
            let tp = self.confusion[c][c];
            proof {
                lemma_cell_le_row(self.confusion@[c as int]@, c as int);
            }
            Some((tp, row))
        }
    }

    /// The per-class precisions, index-aligned with the classes: each entry
    /// as `precision` reports it.
    pub fn precisions(&self) -> (r: Vec<Option<(u64, u64)>>)
        requires
            self.wf(),
            total_cells(self.rows()) <= u64::MAX,
        ensures
            r@.len() == self.n(),
            forall|c: int|
                0 <= c < self.n() ==> match #[trigger] r@[c] {
                    Some(f) => {
                        &&& f.0 == self.cell(c, c)
                        &&& f.1 == row_sum(self.confusion@[c]@)
                        &&& f.0 <= f.1
                        &&& f.1 > 0
                    },
                    None => row_sum(self.confusion@[c]@) == 0,
                },
    {
        let n = self.confusion.len();
        let mut r: Vec<Option<(u64, u64)>> = Vec::new();
        let mut c: usize = 0;
        while c < n
            invariant
                c <= n,
                n == self.n(),
                self.wf(),
                total_cells(self.rows()) <= u64::MAX,
                r@.len() == c,
                forall|k: int|
                    0 <= k < c ==> match #[trigger] r@[k] {
                        Some(f) => {
                            &&& f.0 == self.cell(k, k)
                            &&& f.1 == row_sum(self.confusion@[k]@)
                            &&& f.0 <= f.1
                            &&& f.1 > 0
                        },
                        None => row_sum(self.confusion@[k]@) == 0,
                    },
            decreases n - c,
        {
            proof {
                lemma_row_le_total(self.rows(), c as int);
                assert(self.rows()[c as int] == self.confusion@[c as int]@);
            }
            let p = self.precision(c);
            r.push(p);
            c = c + 1;
        }
        r
    }

    /// The overall precision: documents classified correctly over all
    /// documents evaluated, as the exact fraction (numerator, denominator).
    /// `None` when nothing was evaluated, which leaves it undefined.
    pub fn overall_precision(&self) -> (r: Option<(u64, u64)>)
        requires
            self.wf(),
            total_cells(self.rows()) <= u64::MAX,
        ensures
            match r {
                Some(f) => {
                    &&& f.0 == diag_sum(self.rows(), self.n())
                    &&& f.1 == total_cells(self.rows())
                    &&& f.0 <= f.1
                    &&& f.1 > 0
                },
                None => total_cells(self.rows()) == 0,
            },
    {
        let n = self.confusion.len();
        let mut tp: u64 = 0;
        let mut tot: u64 = 0;
        let mut p: usize = 0;
        proof {
            assert(self.rows().take(0) =~= Seq::<Seq<u64>>::empty());
        }
        while p < n
            invariant
                p <= n,
                n == self.n(),
                self.wf(),
                total_cells(self.rows()) <= u64::MAX,
                tp as nat == diag_sum(self.rows(), p as nat),
                tot as nat == total_cells(self.rows().take(p as int)),
                tp <= tot,
            decreases n - p,
        {
            proof {
                lemma_take_snoc_total(self.rows(), p as int);
                lemma_total_prefix_le(self.rows(), p as int + 1);
                lemma_cell_le_row(self.rows()[p as int], p as int);
                assert(self.rows()[p as int] == self.confusion@[p as int]@);
                lemma_row_le_total(self.rows(), p as int);
            }
            let row = sum_row(&self.confusion[p]);
            let d = self.confusion[p][p];
            tp = tp + d;
            tot = tot + row;
            p = p + 1;
        }
        proof {
            assert(self.rows().take(n as int) =~= self.rows());
        }
        if tot == 0 {
            None
        } else {
            Some((tp, tot))
        }
    }
}

/// The sum of a row of counts.
fn sum_row(row: &Vec<u64>) -> (r: u64)
    requires
        row_sum(row@) <= u64::MAX,
    ensures
        r as nat == row_sum(row@),
{
    let n = row.len();
    let mut acc: u64 = 0;
    let mut i: usize = 0;
    proof {
        assert(row@.skip(0) =~= row@);
    }
    while i < n
        invariant
            i <= n,
            n == row@.len(),
            row_sum(row@) <= u64::MAX,
            acc + row_sum(row@.skip(i as int)) == row_sum(row@),
        decreases n - i,
    {
        proof {
            assert(row@.skip(i as int)[0] == row@[i as int]);
            assert(row@.skip(i as int).drop_first() =~= row@.skip(i as int + 1));
        }
        acc = acc + row[i];
        i = i + 1;
    }
    proof {
        assert(row@.skip(n as int) =~= Seq::<u64>::empty());
    }
    acc
}

/// Classify each held-out document and tally it in the confusion matrix.
///
/// Each document lands in exactly one cell, so the sum of all cells equals
/// the number of documents evaluated.
#[verifier::loop_isolation(false)]
pub fn evaluate(model: &Model, docs: &Vec<News>) -> (r: Evaluation)
    requires
        model.wf(),
        model.classes@.len() > 0,
        labels_ok(docs@, model.classes@.len() as int),
    ensures
        r.wf(),
        r.n() == model.classes@.len(),
        forall|p: int, a: int|
            0 <= p < r.n() && 0 <= a < r.n() ==> r.cell(p, a) == cm_cell(
                model.views(),
                docs@,
                p,
                a,
            ),
        total_cells(r.rows()) == docs@.len(),
{
    let n = model.classes.len();
    let mut confusion: Vec<Vec<u64>> = Vec::new();
    let mut p: usize = 0;
    while p < n
        invariant
            p <= n,
            confusion@.len() == p,
            forall|q: int| 0 <= q < p ==> (#[trigger] confusion@[q])@.len() == n,
            forall|q: int, a: int|
                0 <= q < p && 0 <= a < n ==> #[trigger] confusion@[q]@[a] == 0,
            total_cells(confusion@.map_values(|r: Vec<u64>| r@)) == 0,
        decreases n - p,
    {
        let mut row: Vec<u64> = Vec::new();
        let mut a: usize = 0;
        while a < n
            invariant
                a <= n,
                row@.len() == a,
                forall|k: int| 0 <= k < a ==> row@[k] == 0,
                row_sum(row@) == 0,
            decreases n - a,
        {
            let ghost old_row = row@;
            row.push(0);
            proof {
                lemma_row_sum_push(old_row, 0);
            }
            a = a + 1;
        }
        let ghost old_rows = confusion@.map_values(|r: Vec<u64>| r@);
        confusion.push(row);
        proof {
            assert(confusion@.map_values(|r: Vec<u64>| r@) =~= old_rows.push(row@));
            lemma_total_push(old_rows, row@);
        }
        p = p + 1;
    }
    let mut ev = Evaluation { confusion };
    let nd = docs.len();
    let ghost m = model.views();
    let mut i: usize = 0;
    proof {
        assert(docs@.skip(0) =~= docs@);
    }
    while i < nd
        invariant
            i <= nd,
            ev.wf(),
            ev.n() == n,
            forall|p: int, a: int|
                0 <= p < n && 0 <= a < n ==> ev.cell(p, a) + cm_cell(m, docs@.skip(i as int), p, a)
                    == cm_cell(m, docs@, p, a),
            forall|p: int, a: int| 0 <= p < n && 0 <= a < n ==> ev.cell(p, a) <= i,
            total_cells(ev.rows()) == i,
        decreases nd - i,
    {
        proof {
            assert(docs@.skip(i as int)[0] == docs@[i as int]);
            assert(docs@.skip(i as int).drop_first() =~= docs@.skip(i as int + 1));
        }
        let (pred, _score) = model.classify(&docs[i]);
        let actual = (docs[i].class_index - 1) as usize;
        let v = ev.confusion[pred][actual];
        proof {
            assert(ev.cell(pred as int, actual as int) == v as nat);
        }
        let ghost old_conf = ev.confusion@;
        let ghost old_rows = ev.rows();
        let ghost old_row = ev.confusion@[pred as int]@;
        proof {
            assert(forall|p: int, a: int|
                0 <= p < n && 0 <= a < n ==> (#[trigger] old_conf[p]@[a]) as nat + cm_cell(
                    m,
                    docs@.skip(i as int),
                    p,
                    a,
                ) == cm_cell(m, docs@, p, a) && old_conf[p]@[a] <= i) by {
                assert(forall|p: int, a: int|
                    0 <= p < n && 0 <= a < n ==> #[trigger] ev.cell(p, a) == old_conf[p]@[a]);
            }
            assert(1 <= docs@[i as int].class_index as int);
            assert(spec_classify(m, docs@.skip(i as int)[0].toks()) == pred as int);
        }
        ev.confusion[pred][actual] = v + 1;
        proof {
            assert(ev.confusion@[pred as int]@ =~= old_row.update(actual as int, (v + 1) as u64));
            assert(forall|p: int|
                0 <= p < n && p != pred as int ==> #[trigger] ev.confusion@[p] == old_conf[p]);
            assert(ev.rows() =~= old_rows.update(
                pred as int,
                old_row.update(actual as int, (v + 1) as u64),
            ));
            lemma_row_sum_update(old_row, actual as int, (v + 1) as u64);
            lemma_total_update(old_rows, pred as int, old_row.update(actual as int, (v + 1) as u64));
            assert forall|p: int, a: int| 0 <= p < n && 0 <= a < n implies #[trigger] ev.cell(p, a)
                + cm_cell(m, docs@.skip(i as int + 1), p, a) == cm_cell(m, docs@, p, a) && ev.cell(
                p,
                a,
            ) <= i + 1 by {
                if p == pred as int {
                    if a == actual as int {
                        assert(ev.cell(p, a) == v + 1);
                    } else {
                        assert(ev.confusion@[p]@[a] == old_row[a]);
                    }
                } else {
                    assert(ev.confusion@[p] == old_conf[p]);
                }
            }
        }
        i = i + 1;
    }
    proof {
        assert(docs@.skip(nd as int) =~= Seq::<News>::empty());
    }
    ev
}

/// Appending a cell adds its value to the row sum.
proof fn lemma_row_sum_push(s: Seq<u64>, v: u64)
    ensures
        row_sum(s.push(v)) == row_sum(s) + v,
    decreases s.len(),
{
    if s.len() == 0 {
        assert(s.push(v).drop_first() =~= Seq::<u64>::empty());
        assert(s.push(v)[0] == v);
        assert(row_sum(Seq::<u64>::empty()) == 0);
        assert(s =~= Seq::<u64>::empty());
    } else {
        assert(s.push(v).drop_first() =~= s.drop_first().push(v));
        assert(s.push(v)[0] == s[0]);
        lemma_row_sum_push(s.drop_first(), v);
    }
}

/// Appending a row adds its sum to the matrix total.
proof fn lemma_total_push(mat: Seq<Seq<u64>>, row: Seq<u64>)
    ensures
        total_cells(mat.push(row)) == total_cells(mat) + row_sum(row),
    decreases mat.len(),
{
    if mat.len() == 0 {
        assert(mat.push(row).drop_first() =~= Seq::<Seq<u64>>::empty());
        assert(mat.push(row)[0] == row);
        assert(total_cells(Seq::<Seq<u64>>::empty()) == 0);
        assert(mat =~= Seq::<Seq<u64>>::empty());
    } else {
        assert(mat.push(row).drop_first() =~= mat.drop_first().push(row));
        assert(mat.push(row)[0] == mat[0]);
        lemma_total_push(mat.drop_first(), row);
    }
}

} // verus!
