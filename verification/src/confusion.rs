use vstd::prelude::*;

use crate::LabeledSample;
use crate::token::push_char;

verus! {

// The shared evaluation harness: a 3x3 confusion matrix over the known
// labels (negative 0, neutral 2, positive 4), filled from
// (true label, predicted label) pairs, and its textual rendering.
// Samples whose true or predicted label is unknown are dropped, not
// counted as errors.

/// The most evaluation pairs a matrix accepts.
pub const MAX_PAIRS: usize = 0x7fff_ffff;

/// The row (or column) of a label: 0 for negative, 1 for neutral, 2
/// for positive, nothing for an unknown label.
pub open spec fn spec_idx(l: i32) -> Option<int> {
    if l == 0 {
        Some(0)
    } else if l == 2 {
        Some(1)
    } else if l == 4 {
        Some(2)
    } else {
        None
    }
}

fn label_index(l: i32) -> (r: Option<usize>)
    ensures
        match r {
            Some(i) => spec_idx(l) == Some(i as int),
            None => spec_idx(l) is None,
        },
{
    if l == 0 {
        Some(0)
    } else if l == 2 {
        Some(1)
    } else if l == 4 {
        Some(2)
    } else {
        None
    }
}

/// How many of the first `m` pairs fall in cell `(a, b)`: true label
/// of row `a`, predicted label of column `b`.
pub open spec fn cell_count(pairs: Seq<(i32, i32)>, a: int, b: int, m: int) -> int
    decreases m,
{
    if m <= 0 {
        0
    } else {
        cell_count(pairs, a, b, m - 1) + if spec_idx(pairs[m - 1].0) == Some(a) && spec_idx(
            pairs[m - 1].1,
        ) == Some(b) {
            1int
        } else {
            0
        }
    }
}

/// How many of the first `m` pairs have both labels known.
pub open spec fn known_count(pairs: Seq<(i32, i32)>, m: int) -> int
    decreases m,
{
    if m <= 0 {
        0
    } else {
        known_count(pairs, m - 1) + if spec_idx(pairs[m - 1].0) is Some && spec_idx(
            pairs[m - 1].1,
        ) is Some {
            1int
        } else {
            0
        }
    }
}

/// A 3x3 confusion matrix: rows are true labels, columns predicted
/// labels.
pub struct ConfusionMatrix {
    pub cells: Vec<Vec<u64>>,
}

impl ConfusionMatrix {
    pub open spec fn wf(&self) -> bool {
        &&& self.cells@.len() == 3
        &&& forall|a: int| 0 <= a < 3 ==> (#[trigger] self.cells@[a])@.len() == 3
        &&& forall|a: int, b: int|
            0 <= a < 3 && 0 <= b < 3 ==> (#[trigger] self.cells@[a]@[b]) <= MAX_PAIRS
    }

    pub open spec fn at(&self, a: int, b: int) -> int {
        self.cells@[a]@[b] as int
    }
}

/// Accumulates the confusion matrix of a list of
/// (true label, predicted label) pairs; pairs with an unknown label on
/// either side are dropped.
pub fn build_matrix(results: &Vec<(i32, i32)>) -> (r: ConfusionMatrix)
    requires
        results@.len() <= MAX_PAIRS,
    ensures
        r.wf(),
        forall|a: int, b: int|
            0 <= a < 3 && 0 <= b < 3 ==> #[trigger] r.at(a, b) == cell_count(
                results@,
                a,
                b,
                results@.len() as int,
            ),
{
    let mut cells: Vec<Vec<u64>> = Vec::new();
    let mut z: usize = 0;
    while z < 3
        invariant
            z <= 3,
            cells@.len() == z,
            forall|a: int| 0 <= a < z ==> (#[trigger] cells@[a])@.len() == 3,
            forall|a: int, b: int| 0 <= a < z && 0 <= b < 3 ==> (#[trigger] cells@[a]@[b])
                == 0,
        decreases 3 - z,
    {
        let mut row: Vec<u64> = Vec::new();
        row.push(0);
        row.push(0);
        row.push(0);
        cells.push(row);
        z += 1;
    }
    let mut mtx = ConfusionMatrix { cells };
    let mut i: usize = 0;
    while i < results.len()
        invariant
            i <= results@.len(),
            results@.len() <= MAX_PAIRS,
            mtx.cells@.len() == 3,
            forall|a: int| 0 <= a < 3 ==> (#[trigger] mtx.cells@[a])@.len() == 3,
            forall|a: int, b: int|
                0 <= a < 3 && 0 <= b < 3 ==> (#[trigger] mtx.cells@[a]@[b]) == cell_count(
                    results@,
                    a,
                    b,
                    i as int,
                ),
            forall|a: int, b: int|
                0 <= a < 3 && 0 <= b < 3 ==> (#[trigger] mtx.cells@[a]@[b]) <= i,
        decreases results@.len() - i,
    {
        let tr = results[i].0;
        let pr = results[i].1;
        let ghost old_cells = mtx.cells@;
        match (label_index(tr), label_index(pr)) {
            (Some(a), Some(b)) => {
                let mut row: Vec<u64> = Vec::new();
                row.push(mtx.cells[a][0]);
                row.push(mtx.cells[a][1]);
                row.push(mtx.cells[a][2]);
                let c = row[b];
                row.set(b, c + 1);
                mtx.cells.set(a, row);
                proof {
                    assert forall|a2: int, b2: int| 0 <= a2 < 3 && 0 <= b2 < 3 implies (
                    #[trigger] mtx.cells@[a2]@[b2]) == cell_count(results@, a2, b2, i + 1)
                        && mtx.cells@[a2]@[b2] <= i + 1 by {
                        if a2 == a {
                            assert(mtx.cells@[a2]@ =~= old_cells[a2]@.update(
                                b as int,
                                (old_cells[a as int]@[b as int] + 1) as u64,
                            ));
                        } else {
                            assert(mtx.cells@[a2] == old_cells[a2]);
                        }
                    }
                }
            },
            _ => {
                proof {
                    assert(forall|a2: int, b2: int|
                        0 <= a2 < 3 && 0 <= b2 < 3 ==> cell_count(results@, a2, b2, i + 1)
                            == cell_count(results@, a2, b2, i as int));
                }
            },
        }
        i += 1;
    }
    mtx
}

/// The sums of a confusion matrix: every cell summed equals the number
/// of pairs with both labels known; each row sums to the true-label
/// count and each column to the predicted-label count among those
/// pairs.
pub proof fn lemma_matrix_totals(pairs: Seq<(i32, i32)>, m: int)
    requires
        0 <= m <= pairs.len(),
    ensures
        cell_count(pairs, 0, 0, m) + cell_count(pairs, 0, 1, m) + cell_count(pairs, 0, 2, m)
            + cell_count(pairs, 1, 0, m) + cell_count(pairs, 1, 1, m) + cell_count(
            pairs,
            1,
            2,
            m,
        ) + cell_count(pairs, 2, 0, m) + cell_count(pairs, 2, 1, m) + cell_count(
            pairs,
            2,
            2,
            m,
        ) == known_count(pairs, m),
        forall|a: int|
            0 <= a < 3 ==> #[trigger] cell_count(pairs, a, 0, m) + cell_count(pairs, a, 1, m)
                + cell_count(pairs, a, 2, m) == row_count(pairs, a, m),
        forall|b: int|
            0 <= b < 3 ==> #[trigger] cell_count(pairs, 0, b, m) + cell_count(pairs, 1, b, m)
                + cell_count(pairs, 2, b, m) == col_count(pairs, b, m),
    decreases m,
{
    if m > 0 {
        lemma_matrix_totals(pairs, m - 1);
        assert forall|a: int|
            0 <= a < 3 implies #[trigger] cell_count(pairs, a, 0, m) + cell_count(
            pairs,
            a,
            1,
            m,
        ) + cell_count(pairs, a, 2, m) == row_count(pairs, a, m) by {
            assert(cell_count(pairs, a, 0, m - 1) + cell_count(pairs, a, 1, m - 1)
                + cell_count(pairs, a, 2, m - 1) == row_count(pairs, a, m - 1));
        }
        assert forall|b: int|
            0 <= b < 3 implies #[trigger] cell_count(pairs, 0, b, m) + cell_count(
            pairs,
            1,
            b,
            m,
        ) + cell_count(pairs, 2, b, m) == col_count(pairs, b, m) by {
            assert(cell_count(pairs, 0, b, m - 1) + cell_count(pairs, 1, b, m - 1)
                + cell_count(pairs, 2, b, m - 1) == col_count(pairs, b, m - 1));
        }
    }
}

/// How many of the first `m` pairs have true label of row `a` and a
/// known prediction.
pub open spec fn row_count(pairs: Seq<(i32, i32)>, a: int, m: int) -> int
    decreases m,
{
    if m <= 0 {
        0
    } else {
        row_count(pairs, a, m - 1) + if spec_idx(pairs[m - 1].0) == Some(a) && spec_idx(
            pairs[m - 1].1,
        ) is Some {
            1int
        } else {
            0
        }
    }
}

/// How many of the first `m` pairs have predicted label of column `b`
/// and a known true label.
pub open spec fn col_count(pairs: Seq<(i32, i32)>, b: int, m: int) -> int
    decreases m,
{
    if m <= 0 {
        0
    } else {
        col_count(pairs, b, m - 1) + if spec_idx(pairs[m - 1].1) == Some(b) && spec_idx(
            pairs[m - 1].0,
        ) is Some {
            1int
        } else {
            0
        }
    }
}

/// The decimal rendering of a nonnegative number.
pub open spec fn dec_str(n: int) -> Seq<char>
    decreases n,
{
    if n < 10 {
        seq![((48 + (if n >= 0 {
            n
        } else {
            0
        }) % 10) as u8) as char]
    } else {
        dec_str(n / 10).push(((48 + n % 10) as u8) as char)
    }
}

/// Renders a number in decimal.
pub fn u64_to_string(n: u64) -> (r: String)
    ensures
        r@ == dec_str(n as int),
    decreases n,
{
    if n < 10 {
        let mut s = String::new();
        push_char(&mut s, ((48 + (n % 10)) as u8) as char);
        proof {
            assert(s@ =~= dec_str(n as int));
        }
        s
    } else {
        let mut s = u64_to_string(n / 10);
        push_char(&mut s, ((48 + (n % 10)) as u8) as char);
        proof {
            assert(s@ =~= dec_str(n as int));
        }
        s
    }
}

/// The rendered confusion table: one row per true label (positive,
/// negative, neutral), one column per predicted label, with row and
/// column totals.
pub open spec fn spec_report(m: &ConfusionMatrix) -> Seq<char> {
    let pos_real = m.at(2, 0) + m.at(2, 1) + m.at(2, 2);
    let neg_real = m.at(0, 0) + m.at(0, 1) + m.at(0, 2);
    let neu_real = m.at(1, 0) + m.at(1, 1) + m.at(1, 2);
    let pos_est = m.at(0, 2) + m.at(1, 2) + m.at(2, 2);
    let neg_est = m.at(0, 0) + m.at(1, 0) + m.at(2, 0);
    let neu_est = m.at(0, 1) + m.at(1, 1) + m.at(2, 1);
    let total = pos_real + neg_real + neu_real;
    "[table=5]\n[cell]Reel/Estime[/cell][cell]Positive[/cell][cell]Negatif[/cell][cell]Neutre[/cell][cell]Total reel[/cell]\n[cell]Positive[/cell][cell]"@
        + dec_str(m.at(2, 2)) + "[/cell][cell]"@ + dec_str(m.at(2, 0)) + "[/cell][cell]"@
        + dec_str(m.at(2, 1)) + "[/cell][cell]"@ + dec_str(pos_real)
        + "[/cell]\n[cell]Negatif[/cell][cell]"@ + dec_str(m.at(0, 2)) + "[/cell][cell]"@
        + dec_str(m.at(0, 0)) + "[/cell][cell]"@ + dec_str(m.at(0, 1)) + "[/cell][cell]"@
        + dec_str(neg_real) + "[/cell]\n[cell]Neutre[/cell][cell]"@ + dec_str(m.at(1, 2))
        + "[/cell][cell]"@ + dec_str(m.at(1, 0)) + "[/cell][cell]"@ + dec_str(m.at(1, 1))
        + "[/cell][cell]"@ + dec_str(neu_real) + "[/cell]\n[cell]Total estime[/cell][cell]"@
        + dec_str(pos_est) + "[/cell][cell]"@ + dec_str(neg_est) + "[/cell][cell]"@ + dec_str(
        neu_est,
    ) + "[/cell][cell]"@ + dec_str(total) + "[/cell]\n[/table]"@
}

/// Renders the confusion matrix as the fixed textual table.
pub fn format_matrice_confusion(m: &ConfusionMatrix) -> (r: String)
    requires
        m.wf(),
    ensures
        r@ == spec_report(m),
{
    let pos_real = m.cells[2][0] + m.cells[2][1] + m.cells[2][2];
    let neg_real = m.cells[0][0] + m.cells[0][1] + m.cells[0][2];
    let neu_real = m.cells[1][0] + m.cells[1][1] + m.cells[1][2];
    let pos_est = m.cells[0][2] + m.cells[1][2] + m.cells[2][2];
    let neg_est = m.cells[0][0] + m.cells[1][0] + m.cells[2][0];
    let neu_est = m.cells[0][1] + m.cells[1][1] + m.cells[2][1];
    let total = pos_real + neg_real + neu_real;
    let mut s = String::new();
    s.append(
        "[table=5]\n[cell]Reel/Estime[/cell][cell]Positive[/cell][cell]Negatif[/cell][cell]Neutre[/cell][cell]Total reel[/cell]\n[cell]Positive[/cell][cell]",
    );
    s.append(u64_to_string(m.cells[2][2]).as_str());
    s.append("[/cell][cell]");
    s.append(u64_to_string(m.cells[2][0]).as_str());
    s.append("[/cell][cell]");
    s.append(u64_to_string(m.cells[2][1]).as_str());
    s.append("[/cell][cell]");
    s.append(u64_to_string(pos_real).as_str());
    s.append("[/cell]\n[cell]Negatif[/cell][cell]");
    s.append(u64_to_string(m.cells[0][2]).as_str());
    s.append("[/cell][cell]");
    s.append(u64_to_string(m.cells[0][0]).as_str());
    s.append("[/cell][cell]");
    s.append(u64_to_string(m.cells[0][1]).as_str());
    s.append("[/cell][cell]");
    s.append(u64_to_string(neg_real).as_str());
    s.append("[/cell]\n[cell]Neutre[/cell][cell]");
    s.append(u64_to_string(m.cells[1][2]).as_str());
    s.append("[/cell][cell]");
    s.append(u64_to_string(m.cells[1][0]).as_str());
    s.append("[/cell][cell]");
    s.append(u64_to_string(m.cells[1][1]).as_str());
    s.append("[/cell][cell]");
    s.append(u64_to_string(neu_real).as_str());
    s.append("[/cell]\n[cell]Total estime[/cell][cell]");
    s.append(u64_to_string(pos_est).as_str());
    s.append("[/cell][cell]");
    s.append(u64_to_string(neg_est).as_str());
    s.append("[/cell][cell]");
    s.append(u64_to_string(neu_est).as_str());
    s.append("[/cell][cell]");
    s.append(u64_to_string(total).as_str());
    s.append("[/cell]\n[/table]");
    proof {
        assert(s@ =~= spec_report(m));
    }
    s
}

} // verus!
