//! A priority matrix: an in-memory collection of (row, column, weight) cells
//! that answers maximum-weight queries globally, per row and per column, while
//! supporting insertion, targeted removal and bulk removal of whole rows and
//! columns.
//!
//! The matrix keeps three keyed max-priority queues in step: a global index
//! from (row, column) to weight — the single source of truth — plus one local
//! queue per live row and one per live column.  The well-formedness predicate
//! [`PriorityMatrix::wf`] states that membership and weight agree across all
//! three, and every operation is proved to preserve it.

use vstd::prelude::*;

pub mod entry;
pub mod pq;

use crate::entry::{BorrowedEntry, OwnedEntry};
use crate::pq::{
    col_pq_is_empty, col_pq_model, col_pq_new, col_pq_peek, col_pq_push, col_pq_remove,
    entry_pq_get, entry_pq_model, entry_pq_new, entry_pq_peek, entry_pq_pop, entry_pq_push,
    entry_pq_remove, entry_pq_to_vec, row_pq_is_empty, row_pq_model, row_pq_new, row_pq_peek,
    row_pq_push, row_pq_remove,
};
use priority_queue::PriorityQueue;

verus! {

/// The cells of `em` that lie in row `r`, as a map from column key to weight.
spec fn row_proj(em: Map<(char, Seq<char>), int>, r: char) -> Map<Seq<char>, int> {
    Map::new(|c: Seq<char>| em.contains_key((r, c)), |c: Seq<char>| em[(r, c)])
}

/// The cells of `em` that lie in column `c`, as a map from row key to weight.
spec fn col_proj(em: Map<(char, Seq<char>), int>, c: Seq<char>) -> Map<char, int> {
    Map::new(|r: char| em.contains_key((r, c)), |r: char| em[(r, c)])
}

/// The cells of `em` whose row differs from `r`.
pub open spec fn drop_row(em: Map<(char, Seq<char>), int>, r: char) -> Map<(char, Seq<char>), int> {
    Map::new(
        |k: (char, Seq<char>)| em.contains_key(k) && k.0 != r,
        |k: (char, Seq<char>)| em[k],
    )
}

/// The cells of `em` whose column differs from `c`.
pub open spec fn drop_col(em: Map<(char, Seq<char>), int>, c: Seq<char>) -> Map<(char, Seq<char>), int> {
    Map::new(
        |k: (char, Seq<char>)| em.contains_key(k) && k.1 != c,
        |k: (char, Seq<char>)| em[k],
    )
}

/// The cells of `em` that lie neither in row `r` nor in column `c`.
pub open spec fn drop_row_and_col(
    em: Map<(char, Seq<char>), int>,
    r: char,
    c: Seq<char>,
) -> Map<(char, Seq<char>), int> {
    Map::new(
        |k: (char, Seq<char>)| em.contains_key(k) && k.0 != r && k.1 != c,
        |k: (char, Seq<char>)| em[k],
    )
}

/// The map described by a sequence of (row, column, weight) triples inserted
/// in order, so that the last occurrence of a (row, column) key wins.
pub open spec fn entries_model(s: Seq<(char, String, i32)>) -> Map<(char, Seq<char>), int>
    decreases s.len(),
{
    if s.len() == 0 {
        Map::empty()
    } else {
        entries_model(s.drop_last()).insert((s.last().0, s.last().1@), s.last().2 as int)
    }
}

proof fn lemma_proj_insert(em: Map<(char, Seq<char>), int>, r: char, c: Seq<char>, w: int)
    ensures
        row_proj(em.insert((r, c), w), r) == row_proj(em, r).insert(c, w),
        forall|r2: char| r2 != r ==> #[trigger] row_proj(em.insert((r, c), w), r2) == row_proj(em, r2),
        col_proj(em.insert((r, c), w), c) == col_proj(em, c).insert(r, w),
        forall|c2: Seq<char>| c2 != c ==> #[trigger] col_proj(em.insert((r, c), w), c2) == col_proj(em, c2),
{
    assert(row_proj(em.insert((r, c), w), r) =~= row_proj(em, r).insert(c, w));
    assert forall|r2: char| r2 != r implies #[trigger] row_proj(em.insert((r, c), w), r2) == row_proj(
        em,
        r2,
    ) by {
        assert(row_proj(em.insert((r, c), w), r2) =~= row_proj(em, r2));
    }
    assert(col_proj(em.insert((r, c), w), c) =~= col_proj(em, c).insert(r, w));
    assert forall|c2: Seq<char>| c2 != c implies #[trigger] col_proj(em.insert((r, c), w), c2) == col_proj(
        em,
        c2,
    ) by {
        assert(col_proj(em.insert((r, c), w), c2) =~= col_proj(em, c2));
    }
}

proof fn lemma_proj_remove(em: Map<(char, Seq<char>), int>, r: char, c: Seq<char>)
    ensures
        row_proj(em.remove((r, c)), r) == row_proj(em, r).remove(c),
        forall|r2: char| r2 != r ==> #[trigger] row_proj(em.remove((r, c)), r2) == row_proj(em, r2),
        col_proj(em.remove((r, c)), c) == col_proj(em, c).remove(r),
        forall|c2: Seq<char>| c2 != c ==> #[trigger] col_proj(em.remove((r, c)), c2) == col_proj(em, c2),
{
    assert(row_proj(em.remove((r, c)), r) =~= row_proj(em, r).remove(c));
    assert forall|r2: char| r2 != r implies #[trigger] row_proj(em.remove((r, c)), r2) == row_proj(
        em,
        r2,
    ) by {
        assert(row_proj(em.remove((r, c)), r2) =~= row_proj(em, r2));
    }
    assert(col_proj(em.remove((r, c)), c) =~= col_proj(em, c).remove(r));
    assert forall|c2: Seq<char>| c2 != c implies #[trigger] col_proj(em.remove((r, c)), c2) == col_proj(
        em,
        c2,
    ) by {
        assert(col_proj(em.remove((r, c)), c2) =~= col_proj(em, c2));
    }
}

/// No two elements carry the same row key.
spec fn rows_distinct(rows: Seq<(char, PriorityQueue<String, i32>)>) -> bool {
    forall|i: int, j: int|
        0 <= i < j < rows.len() ==> (#[trigger] rows[i]).0 != (#[trigger] rows[j]).0
}

/// Every stored row queue holds exactly that row's cells of `em`.
spec fn rows_match(rows: Seq<(char, PriorityQueue<String, i32>)>, em: Map<(char, Seq<char>), int>) -> bool {
    forall|i: int|
        0 <= i < rows.len() ==> #[trigger] col_pq_model(rows[i].1) == row_proj(em, rows[i].0)
}

/// Every row that owns a cell of `em` has a stored row queue.
spec fn rows_cover(rows: Seq<(char, PriorityQueue<String, i32>)>, em: Map<(char, Seq<char>), int>) -> bool {
    forall|k: (char, Seq<char>)|
        #[trigger] em.contains_key(k) ==> exists|i: int|
            0 <= i < rows.len() && (#[trigger] rows[i]).0 == k.0
}

/// No two elements carry the same column key.
spec fn cols_distinct(cols: Seq<(String, PriorityQueue<char, i32>)>) -> bool {
    forall|i: int, j: int|
        0 <= i < j < cols.len() ==> (#[trigger] cols[i]).0@ != (#[trigger] cols[j]).0@
}

/// Every stored column queue holds exactly that column's cells of `em`.
spec fn cols_match(cols: Seq<(String, PriorityQueue<char, i32>)>, em: Map<(char, Seq<char>), int>) -> bool {
    forall|i: int|
        0 <= i < cols.len() ==> #[trigger] row_pq_model(cols[i].1) == col_proj(em, cols[i].0@)
}

/// Every column that owns a cell of `em` has a stored column queue.
spec fn cols_cover(cols: Seq<(String, PriorityQueue<char, i32>)>, em: Map<(char, Seq<char>), int>) -> bool {
    forall|k: (char, Seq<char>)|
        #[trigger] em.contains_key(k) ==> exists|i: int|
            0 <= i < cols.len() && (#[trigger] cols[i]).0@ == k.1
}

/// The 2-dimensional matrix that supports per-row and per-column
/// maximum weight queries.
pub struct PriorityMatrix {
    entries: PriorityQueue<(char, String), i32>,
    rows: Vec<(char, PriorityQueue<String, i32>)>,
    cols: Vec<(String, PriorityQueue<char, i32>)>,
}

fn find_row(rows: &Vec<(char, PriorityQueue<String, i32>)>, r: char) -> (res: Option<usize>)
    ensures
        res matches Some(i) ==> i < rows@.len() && rows@[i as int].0 == r,
        res is None ==> forall|j: int| 0 <= j < rows@.len() ==> (#[trigger] rows@[j]).0 != r,
{
    let mut i: usize = 0;
    while i < rows.len()
        invariant
            i <= rows@.len(),
            forall|j: int| 0 <= j < i ==> (#[trigger] rows@[j]).0 != r,
        decreases rows@.len() - i,
    {
        if rows[i].0 == r {
            return Some(i);
        }
        i = i + 1;
    }
    None
}

fn find_col(cols: &Vec<(String, PriorityQueue<char, i32>)>, c: &String) -> (res: Option<usize>)
    ensures
        res matches Some(i) ==> i < cols@.len() && cols@[i as int].0@ == c@,
        res is None ==> forall|j: int| 0 <= j < cols@.len() ==> (#[trigger] cols@[j]).0@ != c@,
{
    let mut i: usize = 0;
    while i < cols.len()
        invariant
            i <= cols@.len(),
            forall|j: int| 0 <= j < i ==> (#[trigger] cols@[j]).0@ != c@,
        decreases cols@.len() - i,
    {
        if cols[i].0 == *c {
            return Some(i);
        }
        i = i + 1;
    }
    None
}

impl PriorityMatrix {
    /// The cells of the matrix: the authoritative map from (row, column) to
    /// weight held by the global index.
    pub closed spec fn model(self) -> Map<(char, Seq<char>), int> {
        entry_pq_model(self.entries)
    }

    /// Well-formedness: the global index is finite, row and column keys are
    /// stored at most once, every local queue holds exactly its row's or
    /// column's cells, and every row or column that owns a cell has a local
    /// queue.
    pub closed spec fn wf(self) -> bool {
        &&& self.model().dom().finite()
        &&& rows_distinct(self.rows@)
        &&& rows_match(self.rows@, self.model())
        &&& rows_cover(self.rows@, self.model())
        &&& cols_distinct(self.cols@)
        &&& cols_match(self.cols@, self.model())
        &&& cols_cover(self.cols@, self.model())
    }

    /// What the row's local queue reports for row `r`: its map from column
    /// key to weight, empty when the row has no queue.
    pub closed spec fn row_index(self, r: char) -> Map<Seq<char>, int> {
        if exists|i: int| 0 <= i < self.rows@.len() && (#[trigger] self.rows@[i]).0 == r {
            col_pq_model(
                self.rows@[choose|i: int|
                    0 <= i < self.rows@.len() && (#[trigger] self.rows@[i]).0 == r].1,
            )
        } else {
            Map::empty()
        }
    }

    /// What the column's local queue reports for column `c`: its map from row
    /// key to weight, empty when the column has no queue.
    pub closed spec fn col_index(self, c: Seq<char>) -> Map<char, int> {
        if exists|i: int| 0 <= i < self.cols@.len() && (#[trigger] self.cols@[i]).0@ == c {
            row_pq_model(
                self.cols@[choose|i: int|
                    0 <= i < self.cols@.len() && (#[trigger] self.cols@[i]).0@ == c].1,
            )
        } else {
            Map::empty()
        }
    }

    /// Creates an empty matrix.
    pub fn new() -> (m: Self)
        ensures
            m.wf(),
            m.model() == Map::<(char, Seq<char>), int>::empty(),
    {
        let m = PriorityMatrix { entries: entry_pq_new(), rows: Vec::new(), cols: Vec::new() };
        proof {
            assert(m.model() =~= Map::<(char, Seq<char>), int>::empty());
            assert(m.model().dom() =~= Set::<(char, Seq<char>)>::empty());
        }
        m
    }

    /// Upserts the cell: installs the weight for the (row, column) key in all
    /// three indices, and returns the previous weight when the key was
    /// already present.
    pub fn insert(&mut self, row: char, col: String, weight: i32) -> (prev: Option<i32>)
        requires
            old(self).wf(),
        ensures
            final(self).wf(),
            final(self).model() == old(self).model().insert((row, col@), weight as int),
            prev is Some <==> old(self).model().contains_key((row, col@)),
            prev matches Some(p) ==> p as int == old(self).model()[(row, col@)],
    {
        let ghost em0 = self.model();
        let prev = entry_pq_push(&mut self.entries, row, col.clone(), weight);
        let ghost em1 = self.model();
        proof {
            lemma_proj_insert(em0, row, col@, weight as int);
            assert(em1.dom() =~= em0.dom().insert((row, col@)));
        }
        // bring the row's local queue in step
        let found = find_row(&self.rows, row);
        match found {
            Some(i) => {
                let ghost s0 = self.rows@;
                let mut pair = self.rows.remove(i);
                proof {
                    s0.remove_ensures(i as int);
                    assert(col_pq_model(pair.1) == row_proj(em0, row));
                }
                let _ = col_pq_push(&mut pair.1, col.clone(), weight);
                self.rows.push(pair);
                proof {
                    let s2 = self.rows@;
                    assert forall|j: int| 0 <= j < s2.len() implies #[trigger] col_pq_model(s2[j].1)
                        == row_proj(em1, s2[j].0) by {
                        if j < s2.len() - 1 {
                            assert(s2[j] == if j < i { s0[j] } else { s0[j + 1] });
                            assert(s2[j].0 != row);
                        } else {
                            assert(s2[j].0 == row);
                        }
                    }
                    assert(rows_distinct(s2)) by {
                        assert forall|a: int, b: int| 0 <= a < b < s2.len() implies (
                        #[trigger] s2[a]).0 != (#[trigger] s2[b]).0 by {
                            if b == s2.len() - 1 {
                                assert(s2[a] == if a < i { s0[a] } else { s0[a + 1] });
                            } else {
                                assert(s2[a] == if a < i { s0[a] } else { s0[a + 1] });
                                assert(s2[b] == if b < i { s0[b] } else { s0[b + 1] });
                            }
                        }
                    }
                    assert(rows_cover(s2, em1)) by {
                        assert forall|k: (char, Seq<char>)| #[trigger] em1.contains_key(k) implies
                            exists|j: int| 0 <= j < s2.len() && (#[trigger] s2[j]).0 == k.0 by {
                            if k.0 == row {
                                assert(s2[s2.len() - 1].0 == k.0);
                            } else {
                                assert(em0.contains_key(k));
                                let i0 = choose|i0: int|
                                    0 <= i0 < s0.len() && (#[trigger] s0[i0]).0 == k.0;
                                assert(i0 != i);
                                let j0: int = if i0 < i { i0 } else { i0 - 1 };
                                assert(s2[j0] == s0[i0]);
                            }
                        }
                    }
                }
            },
            None => {
                let ghost s0 = self.rows@;
                let mut q = col_pq_new();
                let _ = col_pq_push(&mut q, col.clone(), weight);
                self.rows.push((row, q));
                proof {
                    assert(row_proj(em0, row) =~= Map::<Seq<char>, int>::empty()) by {
                        assert forall|c2: Seq<char>| !em0.contains_key((row, c2)) by {
                            if em0.contains_key((row, c2)) {
                                let i0 = choose|i0: int|
                                    0 <= i0 < s0.len() && (#[trigger] s0[i0]).0 == row;
                                assert(false);
                            }
                        }
                    }
                    let s2 = self.rows@;
                    assert forall|j: int| 0 <= j < s2.len() implies #[trigger] col_pq_model(s2[j].1)
                        == row_proj(em1, s2[j].0) by {
                        if j < s2.len() - 1 {
                            assert(s2[j] == s0[j]);
                            assert(s2[j].0 != row);
                        } else {
                            assert(s2[j].0 == row);
                            assert(col_pq_model(s2[j].1) =~= row_proj(em1, row));
                        }
                    }
                    assert(rows_cover(s2, em1)) by {
                        assert forall|k: (char, Seq<char>)| #[trigger] em1.contains_key(k) implies
                            exists|j: int| 0 <= j < s2.len() && (#[trigger] s2[j]).0 == k.0 by {
                            if k.0 == row {
                                assert(s2[s2.len() - 1].0 == k.0);
                            } else {
                                assert(em0.contains_key(k));
                                let i0 = choose|i0: int|
                                    0 <= i0 < s0.len() && (#[trigger] s0[i0]).0 == k.0;
                                assert(s2[i0] == s0[i0]);
                            }
                        }
                    }
                }
            },
        }
        // bring the column's local queue in step
        let found_c = find_col(&self.cols, &col);
        match found_c {
            Some(i) => {
                let ghost s0 = self.cols@;
                let mut pair = self.cols.remove(i);
                proof {
                    s0.remove_ensures(i as int);
                    assert(row_pq_model(pair.1) == col_proj(em0, col@));
                }
                let _ = row_pq_push(&mut pair.1, row, weight);
                self.cols.push(pair);
                proof {
                    let s2 = self.cols@;
                    assert forall|j: int| 0 <= j < s2.len() implies #[trigger] row_pq_model(s2[j].1)
                        == col_proj(em1, s2[j].0@) by {
                        if j < s2.len() - 1 {
                            assert(s2[j] == if j < i { s0[j] } else { s0[j + 1] });
                            assert(s2[j].0@ != col@);
                        } else {
                            assert(s2[j].0@ == col@);
                        }
                    }
                    assert(cols_distinct(s2)) by {
                        assert forall|a: int, b: int| 0 <= a < b < s2.len() implies (
                        #[trigger] s2[a]).0@ != (#[trigger] s2[b]).0@ by {
                            if b == s2.len() - 1 {
                                assert(s2[a] == if a < i { s0[a] } else { s0[a + 1] });
                            } else {
                                assert(s2[a] == if a < i { s0[a] } else { s0[a + 1] });
                                assert(s2[b] == if b < i { s0[b] } else { s0[b + 1] });
                            }
                        }
                    }
                    assert(cols_cover(s2, em1)) by {
                        assert forall|k: (char, Seq<char>)| #[trigger] em1.contains_key(k) implies
                            exists|j: int| 0 <= j < s2.len() && (#[trigger] s2[j]).0@ == k.1 by {
                            if k.1 == col@ {
                                assert(s2[s2.len() - 1].0@ == k.1);
                            } else {
                                assert(em0.contains_key(k));
                                let i0 = choose|i0: int|
                                    0 <= i0 < s0.len() && (#[trigger] s0[i0]).0@ == k.1;
                                assert(i0 != i);
                                let j0: int = if i0 < i { i0 } else { i0 - 1 };
                                assert(s2[j0] == s0[i0]);
                            }
                        }
                    }
                }
            },
            None => {
                let ghost s0 = self.cols@;
                let mut q = row_pq_new();
                let _ = row_pq_push(&mut q, row, weight);
                self.cols.push((col, q));
                proof {
                    assert(col_proj(em0, self.cols@[self.cols@.len() - 1].0@) =~= Map::<char, int>::empty()) by {
                        let cv = self.cols@[self.cols@.len() - 1].0@;
                        assert forall|r2: char| !em0.contains_key((r2, cv)) by {
                            if em0.contains_key((r2, cv)) {
                                let i0 = choose|i0: int|
                                    0 <= i0 < s0.len() && (#[trigger] s0[i0]).0@ == cv;
                                assert(false);
                            }
                        }
                    }
                    let s2 = self.cols@;
                    assert forall|j: int| 0 <= j < s2.len() implies #[trigger] row_pq_model(s2[j].1)
                        == col_proj(em1, s2[j].0@) by {
                        if j < s2.len() - 1 {
                            assert(s2[j] == s0[j]);
                            assert(s2[j].0@ != col@);
                        } else {
                            assert(s2[j].0@ == col@);
                            assert(row_pq_model(s2[j].1) =~= col_proj(em1, col@));
                        }
                    }
                    assert(cols_cover(s2, em1)) by {
                        assert forall|k: (char, Seq<char>)| #[trigger] em1.contains_key(k) implies
                            exists|j: int| 0 <= j < s2.len() && (#[trigger] s2[j]).0@ == k.1 by {
                            if k.1 == col@ {
                                assert(s2[s2.len() - 1].0@ == k.1);
                            } else {
                                assert(em0.contains_key(k));
                                let i0 = choose|i0: int|
                                    0 <= i0 < s0.len() && (#[trigger] s0[i0]).0@ == k.1;
                                assert(s2[i0] == s0[i0]);
                            }
                        }
                    }
                }
            },
        }
        prev
    }

    /// After the key (row, col) has been taken out of the global index, takes
    /// it out of the row's and the column's local queues as well, pruning a
    /// local queue that becomes empty.  `em0` is the global map as it stood
    /// before the removal.
    fn detach(&mut self, row: char, col: &String, Ghost(em0): Ghost<Map<(char, Seq<char>), int>>)
        requires
            em0.dom().finite(),
            em0.contains_key((row, col@)),
            rows_distinct(old(self).rows@),
            rows_match(old(self).rows@, em0),
            rows_cover(old(self).rows@, em0),
            cols_distinct(old(self).cols@),
            cols_match(old(self).cols@, em0),
            cols_cover(old(self).cols@, em0),
            entry_pq_model(old(self).entries) == em0.remove((row, col@)),
        ensures
            final(self).entries == old(self).entries,
            final(self).wf(),
    {
        proof {
            lemma_proj_remove(em0, row, col@);
        }
        let ghost em1 = em0.remove((row, col@));
        proof {
            assert(em1.dom() =~= em0.dom().remove((row, col@)));
        }
        // the row's local queue
        let found = find_row(&self.rows, row);
        let i = match found {
            Some(i) => i,
            None => {
                proof {
                    assert(em0.contains_key((row, col@)));
                    assert(false);
                }
                0
            },
        };
        let ghost s0 = self.rows@;
        let mut pair = self.rows.remove(i);
        proof {
            s0.remove_ensures(i as int);
            assert(col_pq_model(pair.1) == row_proj(em0, row));
        }
        let _ = col_pq_remove(&mut pair.1, col);
        proof {
            assert(col_pq_model(pair.1) == row_proj(em1, row));
        }
        if !col_pq_is_empty(&pair.1) {
            self.rows.push(pair);
            proof {
                let s2 = self.rows@;
                assert forall|j: int| 0 <= j < s2.len() implies #[trigger] col_pq_model(s2[j].1)
                    == row_proj(em1, s2[j].0) by {
                    if j < s2.len() - 1 {
                        assert(s2[j] == if j < i { s0[j] } else { s0[j + 1] });
                        assert(s2[j].0 != row);
                    } else {
                        assert(s2[j].0 == row);
                    }
                }
                assert(rows_distinct(s2)) by {
                    assert forall|a: int, b: int| 0 <= a < b < s2.len() implies (
                    #[trigger] s2[a]).0 != (#[trigger] s2[b]).0 by {
                        assert(s2[a] == if a < i { s0[a] } else { s0[a + 1] });
                        if b < s2.len() - 1 {
                            assert(s2[b] == if b < i { s0[b] } else { s0[b + 1] });
                        }
                    }
                }
                assert(rows_cover(s2, em1)) by {
                    assert forall|k: (char, Seq<char>)| #[trigger] em1.contains_key(k) implies
                        exists|j: int| 0 <= j < s2.len() && (#[trigger] s2[j]).0 == k.0 by {
                        if k.0 == row {
                            assert(s2[s2.len() - 1].0 == k.0);
                        } else {
                            assert(em0.contains_key(k));
                            let i0 = choose|i0: int|
                                0 <= i0 < s0.len() && (#[trigger] s0[i0]).0 == k.0;
                            assert(i0 != i);
                            let j0: int = if i0 < i { i0 } else { i0 - 1 };
                            assert(s2[j0] == s0[i0]);
                        }
                    }
                }
            }
        } else {
            proof {
                let s2 = self.rows@;
                assert(row_proj(em1, row) =~= Map::<Seq<char>, int>::empty());
                assert forall|j: int| 0 <= j < s2.len() implies #[trigger] col_pq_model(s2[j].1)
                    == row_proj(em1, s2[j].0) by {
                    assert(s2[j] == if j < i { s0[j] } else { s0[j + 1] });
                    assert(s2[j].0 != row);
                }
                assert(rows_distinct(s2)) by {
                    assert forall|a: int, b: int| 0 <= a < b < s2.len() implies (
                    #[trigger] s2[a]).0 != (#[trigger] s2[b]).0 by {
                        assert(s2[a] == if a < i { s0[a] } else { s0[a + 1] });
                        assert(s2[b] == if b < i { s0[b] } else { s0[b + 1] });
                    }
                }
                assert(rows_cover(s2, em1)) by {
                    assert forall|k: (char, Seq<char>)| #[trigger] em1.contains_key(k) implies
                        exists|j: int| 0 <= j < s2.len() && (#[trigger] s2[j]).0 == k.0 by {
                        if k.0 == row {
                            assert(row_proj(em1, row).contains_key(k.1));
                            assert(false);
                        } else {
                            assert(em0.contains_key(k));
                            let i0 = choose|i0: int|
                                0 <= i0 < s0.len() && (#[trigger] s0[i0]).0 == k.0;
                            assert(i0 != i);
                            let j0: int = if i0 < i { i0 } else { i0 - 1 };
                            assert(s2[j0] == s0[i0]);
                        }
                    }
                }
            }
        }
        // the column's local queue
        let found_c = find_col(&self.cols, col);
        let ic = match found_c {
            Some(ic) => ic,
            None => {
                proof {
                    assert(em0.contains_key((row, col@)));
                    assert(false);
                }
                0
            },
        };
        let ghost t0 = self.cols@;
        let mut cpair = self.cols.remove(ic);
        proof {
            t0.remove_ensures(ic as int);
            assert(row_pq_model(cpair.1) == col_proj(em0, col@));
        }
        let _ = row_pq_remove(&mut cpair.1, &row);
        proof {
            assert(row_pq_model(cpair.1) == col_proj(em1, col@));
        }
        if !row_pq_is_empty(&cpair.1) {
            self.cols.push(cpair);
            proof {
                let t2 = self.cols@;
                assert forall|j: int| 0 <= j < t2.len() implies #[trigger] row_pq_model(t2[j].1)
                    == col_proj(em1, t2[j].0@) by {
                    if j < t2.len() - 1 {
                        assert(t2[j] == if j < ic { t0[j] } else { t0[j + 1] });
                        assert(t2[j].0@ != col@);
                    } else {
                        assert(t2[j].0@ == col@);
                    }
                }
                assert(cols_distinct(t2)) by {
                    assert forall|a: int, b: int| 0 <= a < b < t2.len() implies (
                    #[trigger] t2[a]).0@ != (#[trigger] t2[b]).0@ by {
                        assert(t2[a] == if a < ic { t0[a] } else { t0[a + 1] });
                        if b < t2.len() - 1 {
                            assert(t2[b] == if b < ic { t0[b] } else { t0[b + 1] });
                        }
                    }
                }
                assert(cols_cover(t2, em1)) by {
                    assert forall|k: (char, Seq<char>)| #[trigger] em1.contains_key(k) implies
                        exists|j: int| 0 <= j < t2.len() && (#[trigger] t2[j]).0@ == k.1 by {
                        if k.1 == col@ {
                            assert(t2[t2.len() - 1].0@ == k.1);
                        } else {
                            assert(em0.contains_key(k));
                            let i0 = choose|i0: int|
                                0 <= i0 < t0.len() && (#[trigger] t0[i0]).0@ == k.1;
                            assert(i0 != ic);
                            let j0: int = if i0 < ic { i0 } else { i0 - 1 };
                            assert(t2[j0] == t0[i0]);
                        }
                    }
                }
            }
        } else {
            proof {
                let t2 = self.cols@;
                assert(col_proj(em1, col@) =~= Map::<char, int>::empty());
                assert forall|j: int| 0 <= j < t2.len() implies #[trigger] row_pq_model(t2[j].1)
                    == col_proj(em1, t2[j].0@) by {
                    assert(t2[j] == if j < ic { t0[j] } else { t0[j + 1] });
                    assert(t2[j].0@ != col@);
                }
                assert(cols_distinct(t2)) by {
                    assert forall|a: int, b: int| 0 <= a < b < t2.len() implies (
                    #[trigger] t2[a]).0@ != (#[trigger] t2[b]).0@ by {
                        assert(t2[a] == if a < ic { t0[a] } else { t0[a + 1] });
                        assert(t2[b] == if b < ic { t0[b] } else { t0[b + 1] });
                    }
                }
                assert(cols_cover(t2, em1)) by {
                    assert forall|k: (char, Seq<char>)| #[trigger] em1.contains_key(k) implies
                        exists|j: int| 0 <= j < t2.len() && (#[trigger] t2[j]).0@ == k.1 by {
                        if k.1 == col@ {
                            assert(col_proj(em1, col@).contains_key(k.0));
                            assert(false);
                        } else {
                            assert(em0.contains_key(k));
                            let i0 = choose|i0: int|
                                0 <= i0 < t0.len() && (#[trigger] t0[i0]).0@ == k.1;
                            assert(i0 != ic);
                            let j0: int = if i0 < ic { i0 } else { i0 - 1 };
                            assert(t2[j0] == t0[i0]);
                        }
                    }
                }
            }
        }
    }

    /// Removes the given cell if present and reports whether it was.  On a
    /// miss the matrix is left entirely unchanged.
    pub fn remove(&mut self, row: &char, col: &String) -> (removed: bool)
        requires
            old(self).wf(),
        ensures
            final(self).wf(),
            removed <==> old(self).model().contains_key((*row, col@)),
            final(self).model() == old(self).model().remove((*row, col@)),
            !removed ==> *final(self) == *old(self),
    {
        let ghost em0 = self.model();
        let prev = entry_pq_remove(&mut self.entries, row, col);
        match prev {
            None => {
                proof {
                    assert(em0.remove((*row, col@)) =~= em0);
                }
                false
            },
            Some(_) => {
                self.detach(*row, col, Ghost(em0));
                true
            },
        }
    }

    /// Removes and returns a cell of globally maximal weight, or returns
    /// `None` and leaves the matrix unchanged when it holds no cells.
    pub fn pop(&mut self) -> (r: Option<OwnedEntry>)
        requires
            old(self).wf(),
        ensures
            final(self).wf(),
            r is None <==> (forall|k: (char, Seq<char>)| !old(self).model().contains_key(k)),
            r is None ==> *final(self) == *old(self),
            r matches Some(e) ==> old(self).model().contains_pair((e.row, e.column@), e.weight as int),
            r matches Some(e) ==> (forall|k: (char, Seq<char>)|
                #[trigger] old(self).model().contains_key(k) ==> old(self).model()[k] <= e.weight as int),
            r matches Some(e) ==> final(self).model() == old(self).model().remove((e.row, e.column@)),
    {
        let ghost em0 = self.model();
        let popped = entry_pq_pop(&mut self.entries);
        match popped {
            None => None,
            Some((row, col, w)) => {
                self.detach(row, &col, Ghost(em0));
                Some(OwnedEntry { row, column: col, weight: w })
            },
        }
    }

    /// Returns a cell of globally maximal weight without mutating anything,
    /// or `None` when the matrix holds no cells.
    pub fn peek(&self) -> (r: Option<BorrowedEntry>)
        requires
            self.wf(),
        ensures
            r is None <==> (forall|k: (char, Seq<char>)| !self.model().contains_key(k)),
            r matches Some(e) ==> self.model().contains_pair((e.row, e.column@), e.weight as int),
            r matches Some(e) ==> (forall|k: (char, Seq<char>)|
                #[trigger] self.model().contains_key(k) ==> self.model()[k] <= e.weight as int),
    {
        match entry_pq_peek(&self.entries) {
            None => None,
            Some((row, col, w)) => Some(BorrowedEntry { row, column: col, weight: w }),
        }
    }

    /// Returns a maximal-weight cell of the given row, or `None` when the row
    /// has no cells.  The weight handed back is resolved from the global
    /// index, which the invariant shows agrees with the row's local queue.
    pub fn peek_from_row(&self, row: &char) -> (r: Option<BorrowedEntry>)
        requires
            self.wf(),
        ensures
            r is None <==> (forall|c: Seq<char>| !self.model().contains_key((*row, c))),
            r matches Some(e) ==> e.row == *row,
            r matches Some(e) ==> self.model().contains_pair((*row, e.column@), e.weight as int),
            r matches Some(e) ==> (forall|c: Seq<char>|
                #[trigger] self.model().contains_key((*row, c)) ==> self.model()[(*row, c)] <= e.weight as int),
    {
        let found = find_row(&self.rows, *row);
        match found {
            None => {
                proof {
                    assert forall|c: Seq<char>| !self.model().contains_key((*row, c)) by {
                        if self.model().contains_key((*row, c)) {
                            assert(false);
                        }
                    }
                }
                None
            },
            Some(i) => {
                let pair = &self.rows[i];
                proof {
                    assert(col_pq_model(pair.1) == row_proj(self.model(), *row));
                }
                match col_pq_peek(&pair.1) {
                    None => {
                        proof {
                            assert forall|c: Seq<char>| !self.model().contains_key((*row, c)) by {
                                if self.model().contains_key((*row, c)) {
                                    assert(row_proj(self.model(), *row).contains_key(c));
                                }
                            }
                        }
                        None
                    },
                    Some((c, w)) => {
                        proof {
                            assert(row_proj(self.model(), *row).contains_key(c@));
                            assert(self.model().contains_key((*row, c@)));
                        }
                        let got = entry_pq_get(&self.entries, row, &c);
                        let w2 = got.unwrap();
                        proof {
                            assert(w2 as int == self.model()[(*row, c@)]);
                            assert forall|c2: Seq<char>|
                                #[trigger] self.model().contains_key((*row, c2)) implies self.model()[(
                                *row,
                                c2,
                            )] <= w2 as int by {
                                assert(row_proj(self.model(), *row).contains_key(c2));
                            }
                        }
                        Some(BorrowedEntry { row: *row, column: c, weight: w2 })
                    },
                }
            },
        }
    }

    /// Returns a maximal-weight cell of the given column, or `None` when the
    /// column has no cells.  The weight handed back is resolved from the
    /// global index, which the invariant shows agrees with the column's local
    /// queue.
    pub fn peek_from_column(&self, col: &String) -> (r: Option<BorrowedEntry>)
        requires
            self.wf(),
        ensures
            r is None <==> (forall|x: char| !self.model().contains_key((x, col@))),
            r matches Some(e) ==> e.column@ == col@,
            r matches Some(e) ==> self.model().contains_pair((e.row, col@), e.weight as int),
            r matches Some(e) ==> (forall|x: char|
                #[trigger] self.model().contains_key((x, col@)) ==> self.model()[(x, col@)] <= e.weight as int),
    {
        let found = find_col(&self.cols, col);
        match found {
            None => {
                proof {
                    assert forall|x: char| !self.model().contains_key((x, col@)) by {
                        if self.model().contains_key((x, col@)) {
                            assert(false);
                        }
                    }
                }
                None
            },
            Some(i) => {
                let pair = &self.cols[i];
                proof {
                    assert(row_pq_model(pair.1) == col_proj(self.model(), col@));
                }
                match row_pq_peek(&pair.1) {
                    None => {
                        proof {
                            assert forall|x: char| !self.model().contains_key((x, col@)) by {
                                if self.model().contains_key((x, col@)) {
                                    assert(col_proj(self.model(), col@).contains_key(x));
                                }
                            }
                        }
                        None
                    },
                    Some((x, w)) => {
                        proof {
                            assert(col_proj(self.model(), col@).contains_key(x));
                            assert(self.model().contains_key((x, col@)));
                        }
                        let got = entry_pq_get(&self.entries, &x, col);
                        let w2 = got.unwrap();
                        proof {
                            assert(w2 as int == self.model()[(x, col@)]);
                            assert forall|x2: char|
                                #[trigger] self.model().contains_key((x2, col@)) implies self.model()[(
                                x2,
                                col@,
                            )] <= w2 as int by {
                                assert(col_proj(self.model(), col@).contains_key(x2));
                            }
                        }
                        Some(BorrowedEntry { row: x, column: col.clone(), weight: w2 })
                    },
                }
            },
        }
    }

    /// Removes and returns a maximal-weight cell of the given row, or returns
    /// `None` and leaves the matrix unchanged when the row has no cells.
    pub fn pop_from_row(&mut self, row: &char) -> (r: Option<OwnedEntry>)
        requires
            old(self).wf(),
        ensures
            final(self).wf(),
            r is None <==> (forall|c: Seq<char>| !old(self).model().contains_key((*row, c))),
            r is None ==> *final(self) == *old(self),
            r matches Some(e) ==> e.row == *row,
            r matches Some(e) ==> old(self).model().contains_pair((*row, e.column@), e.weight as int),
            r matches Some(e) ==> (forall|c: Seq<char>|
                #[trigger] old(self).model().contains_key((*row, c)) ==> old(self).model()[(*row, c)] <= e.weight as int),
            r matches Some(e) ==> final(self).model() == old(self).model().remove((*row, e.column@)),
    {
        let ghost em0 = self.model();
        let found = find_row(&self.rows, *row);
        match found {
            None => {
                proof {
                    assert forall|c: Seq<char>| !em0.contains_key((*row, c)) by {
                        if em0.contains_key((*row, c)) {
                            assert(false);
                        }
                    }
                }
                None
            },
            Some(i) => {
                let peeked = {
                    let pair = &self.rows[i];
                    proof {
                        assert(col_pq_model(pair.1) == row_proj(em0, *row));
                    }
                    col_pq_peek(&pair.1)
                };
                match peeked {
                    None => {
                        proof {
                            assert forall|c: Seq<char>| !em0.contains_key((*row, c)) by {
                                if em0.contains_key((*row, c)) {
                                    assert(row_proj(em0, *row).contains_key(c));
                                }
                            }
                        }
                        None
                    },
                    Some((c, w)) => {
                        proof {
                            assert(row_proj(em0, *row).contains_key(c@));
                            assert(em0.contains_pair((*row, c@), w as int));
                            assert forall|c2: Seq<char>|
                                #[trigger] em0.contains_key((*row, c2)) implies em0[(*row, c2)]
                                <= w as int by {
                                assert(row_proj(em0, *row).contains_key(c2));
                            }
                        }
                        let _ = entry_pq_remove(&mut self.entries, row, &c);
                        self.detach(*row, &c, Ghost(em0));
                        Some(OwnedEntry { row: *row, column: c, weight: w })
                    },
                }
            },
        }
    }

    /// Removes and returns a maximal-weight cell of the given column, or
    /// returns `None` and leaves the matrix unchanged when the column has no
    /// cells.
    pub fn pop_from_column(&mut self, col: &String) -> (r: Option<OwnedEntry>)
        requires
            old(self).wf(),
        ensures
            final(self).wf(),
            r is None <==> (forall|x: char| !old(self).model().contains_key((x, col@))),
            r is None ==> *final(self) == *old(self),
            r matches Some(e) ==> e.column@ == col@,
            r matches Some(e) ==> old(self).model().contains_pair((e.row, col@), e.weight as int),
            r matches Some(e) ==> (forall|x: char|
                #[trigger] old(self).model().contains_key((x, col@)) ==> old(self).model()[(x, col@)] <= e.weight as int),
            r matches Some(e) ==> final(self).model() == old(self).model().remove((e.row, col@)),
    {
        let ghost em0 = self.model();
        let found = find_col(&self.cols, col);
        match found {
            None => {
                proof {
                    assert forall|x: char| !em0.contains_key((x, col@)) by {
                        if em0.contains_key((x, col@)) {
                            assert(false);
                        }
                    }
                }
                None
            },
            Some(i) => {
                let peeked = {
                    let pair = &self.cols[i];
                    proof {
                        assert(row_pq_model(pair.1) == col_proj(em0, col@));
                    }
                    row_pq_peek(&pair.1)
                };
                match peeked {
                    None => {
                        proof {
                            assert forall|x: char| !em0.contains_key((x, col@)) by {
                                if em0.contains_key((x, col@)) {
                                    assert(col_proj(em0, col@).contains_key(x));
                                }
                            }
                        }
                        None
                    },
                    Some((x, w)) => {
                        proof {
                            assert(col_proj(em0, col@).contains_key(x));
                            assert(em0.contains_pair((x, col@), w as int));
                            assert forall|x2: char|
                                #[trigger] em0.contains_key((x2, col@)) implies em0[(x2, col@)]
                                <= w as int by {
                                assert(col_proj(em0, col@).contains_key(x2));
                            }
                        }
                        let _ = entry_pq_remove(&mut self.entries, &x, col);
                        self.detach(x, col, Ghost(em0));
                        Some(OwnedEntry { row: x, column: col.clone(), weight: w })
                    },
                }
            },
        }
    }

    /// Deletes every cell of the given row, cleaning the global index and
    /// each affected column's local queue.  A no-op when the row is absent.
    pub fn remove_row(&mut self, row: &char)
        requires
            old(self).wf(),
        ensures
            final(self).wf(),
            final(self).model() == drop_row(old(self).model(), *row),
            (forall|c: Seq<char>| !old(self).model().contains_key((*row, c)))
                ==> *final(self) == *old(self),
    {
        let ghost em_init = self.model();
        let ghost m_init = *self;
        loop
            invariant
                self.wf(),
                forall|k: (char, Seq<char>)| #[trigger] self.model().contains_key(k)
                    ==> em_init.contains_pair(k, self.model()[k]),
                forall|k: (char, Seq<char>)| k.0 != *row && #[trigger] em_init.contains_key(k)
                    ==> self.model().contains_pair(k, em_init[k]),
                (forall|c: Seq<char>| !em_init.contains_key((*row, c))) ==> *self == m_init,
            ensures
                self.wf(),
                forall|k: (char, Seq<char>)| #[trigger] self.model().contains_key(k)
                    ==> em_init.contains_pair(k, self.model()[k]),
                forall|k: (char, Seq<char>)| k.0 != *row && #[trigger] em_init.contains_key(k)
                    ==> self.model().contains_pair(k, em_init[k]),
                forall|c: Seq<char>| !self.model().contains_key((*row, c)),
                (forall|c: Seq<char>| !em_init.contains_key((*row, c))) ==> *self == m_init,
            decreases self.model().dom().len(),
        {
            let ghost before = self.model();
            let popped = self.pop_from_row(row);
            match popped {
                Some(e) => {
                    proof {
                        assert(self.model().dom() =~= before.dom().remove((*row, e.column@)));
                        assert(self.model().dom().len() < before.dom().len());
                    }
                },
                None => {
                    break;
                },
            }
        }
        proof {
            assert forall|k: (char, Seq<char>)| #[trigger] self.model().contains_key(k) implies
                drop_row(em_init, *row).contains_key(k) by {
                if k.0 == *row {
                    assert(k == (k.0, k.1));
                    assert(self.model().contains_key((*row, k.1)));
                }
            }
            assert(self.model() =~= drop_row(em_init, *row));
        }
    }

    /// Deletes every cell of the given column, cleaning the global index and
    /// each affected row's local queue.  A no-op when the column is absent.
    pub fn remove_column(&mut self, col: &String)
        requires
            old(self).wf(),
        ensures
            final(self).wf(),
            final(self).model() == drop_col(old(self).model(), col@),
            (forall|x: char| !old(self).model().contains_key((x, col@)))
                ==> *final(self) == *old(self),
    {
        let ghost em_init = self.model();
        let ghost m_init = *self;
        loop
            invariant
                self.wf(),
                forall|k: (char, Seq<char>)| #[trigger] self.model().contains_key(k)
                    ==> em_init.contains_pair(k, self.model()[k]),
                forall|k: (char, Seq<char>)| k.1 != col@ && #[trigger] em_init.contains_key(k)
                    ==> self.model().contains_pair(k, em_init[k]),
                (forall|x: char| !em_init.contains_key((x, col@))) ==> *self == m_init,
            ensures
                self.wf(),
                forall|k: (char, Seq<char>)| #[trigger] self.model().contains_key(k)
                    ==> em_init.contains_pair(k, self.model()[k]),
                forall|k: (char, Seq<char>)| k.1 != col@ && #[trigger] em_init.contains_key(k)
                    ==> self.model().contains_pair(k, em_init[k]),
                forall|x: char| !self.model().contains_key((x, col@)),
                (forall|x: char| !em_init.contains_key((x, col@))) ==> *self == m_init,
            decreases self.model().dom().len(),
        {
            let ghost before = self.model();
            let popped = self.pop_from_column(col);
            match popped {
                Some(e) => {
                    proof {
                        assert(self.model().dom() =~= before.dom().remove((e.row, col@)));
                        assert(self.model().dom().len() < before.dom().len());
                    }
                },
                None => {
                    break;
                },
            }
        }
        proof {
            assert forall|k: (char, Seq<char>)| #[trigger] self.model().contains_key(k) implies
                drop_col(em_init, col@).contains_key(k) by {
                if k.1 == col@ {
                    assert(k == (k.0, k.1));
                    assert(self.model().contains_key((k.0, col@)));
                }
            }
            assert(self.model() =~= drop_col(em_init, col@));
        }
    }

    /// Deletes every cell that lies in the given row or in the given column:
    /// the union of the two sweeps, each cleaning all three indices.
    pub fn remove_row_and_column(&mut self, row: &char, col: &String)
        requires
            old(self).wf(),
        ensures
            final(self).wf(),
            final(self).model() == drop_row_and_col(old(self).model(), *row, col@),
            (forall|k: (char, Seq<char>)|
                #[trigger] old(self).model().contains_key(k) ==> k.0 != *row && k.1 != col@)
                ==> *final(self) == *old(self),
    {
        let ghost em0 = self.model();
        self.remove_row(row);
        self.remove_column(col);
        proof {
            assert(self.model() =~= drop_row_and_col(em0, *row, col@));
            if forall|k: (char, Seq<char>)|
                #[trigger] em0.contains_key(k) ==> k.0 != *row && k.1 != col@ {
                assert forall|c: Seq<char>| !em0.contains_key((*row, c)) by {
                    if em0.contains_key((*row, c)) {
                        assert(((*row, c)).0 == *row);
                    }
                }
                assert forall|x: char| !em0.contains_key((x, col@)) by {
                    if em0.contains_key((x, col@)) {
                        assert(((x, col@)).1 == col@);
                    }
                }
            }
        }
    }

    /// Builds a matrix from a sequence of triples, equivalent to inserting
    /// them in order: on duplicate (row, column) keys the later weight wins
    /// in every index.
    pub fn from_entries(list: Vec<(char, String, i32)>) -> (m: Self)
        ensures
            m.wf(),
            m.model() == entries_model(list@),
    {
        let mut m = Self::new();
        let mut i: usize = 0;
        while i < list.len()
            invariant
                i <= list@.len(),
                m.wf(),
                m.model() == entries_model(list@.take(i as int)),
            decreases list@.len() - i,
        {
            let e = &list[i];
            let _ = m.insert(e.0, e.1.clone(), e.2);
            proof {
                assert(list@.take(i as int + 1).drop_last() =~= list@.take(i as int));
                assert(list@.take(i as int + 1).last() == list@[i as int]);
            }
            i = i + 1;
        }
        proof {
            assert(list@.take(list@.len() as int) =~= list@);
        }
        m
    }

    /// Lists the cells of the matrix, drawn from the global index in an
    /// unspecified order: every cell appears exactly once.
    pub fn iter(&self) -> (r: Vec<(char, String, i32)>)
        requires
            self.wf(),
        ensures
            forall|i: int| 0 <= i < r@.len() ==>
                self.model().contains_pair(((#[trigger] r@[i]).0, r@[i].1@), r@[i].2 as int),
            forall|i: int, j: int| 0 <= i < j < r@.len() ==>
                ((#[trigger] r@[i]).0, r@[i].1@) != ((#[trigger] r@[j]).0, r@[j].1@),
            forall|k: (char, Seq<char>)| #[trigger] self.model().contains_key(k) ==>
                exists|i: int| 0 <= i < r@.len() && ((#[trigger] r@[i]).0, r@[i].1@) == k,
    {
        entry_pq_to_vec(&self.entries)
    }

    /// Consumes the matrix and hands its cells out as owned triples, in an
    /// unspecified order: every cell appears exactly once.
    pub fn into_entries(self) -> (r: Vec<(char, String, i32)>)
        requires
            self.wf(),
        ensures
            forall|i: int| 0 <= i < r@.len() ==>
                self.model().contains_pair(((#[trigger] r@[i]).0, r@[i].1@), r@[i].2 as int),
            forall|i: int, j: int| 0 <= i < j < r@.len() ==>
                ((#[trigger] r@[i]).0, r@[i].1@) != ((#[trigger] r@[j]).0, r@[j].1@),
            forall|k: (char, Seq<char>)| #[trigger] self.model().contains_key(k) ==>
                exists|i: int| 0 <= i < r@.len() && ((#[trigger] r@[i]).0, r@[i].1@) == k,
    {
        entry_pq_to_vec(&self.entries)
    }
}

impl Default for PriorityMatrix {
    /// Creates an empty matrix.
    fn default() -> (m: Self)
        ensures
            m.wf(),
            m.model() == Map::<(char, Seq<char>), int>::empty(),
    {
        PriorityMatrix::new()
    }
}

/// Law: under the matrix invariant, membership and weight of every (row,
/// column) pair agree across the global index, the row's local index and the
/// column's local index — present in one exactly when present in all, and
/// with the identical weight.
pub proof fn lemma_indices_agree(m: PriorityMatrix, r: char, c: Seq<char>)
    requires
        m.wf(),
    ensures
        m.model().contains_key((r, c)) <==> m.row_index(r).contains_key(c),
        m.model().contains_key((r, c)) <==> m.col_index(c).contains_key(r),
        m.model().contains_key((r, c)) ==> m.row_index(r)[c] == m.model()[(r, c)],
        m.model().contains_key((r, c)) ==> m.col_index(c)[r] == m.model()[(r, c)],
{
    let em = m.model();
    if exists|i: int| 0 <= i < m.rows@.len() && (#[trigger] m.rows@[i]).0 == r {
        let i = choose|i: int| 0 <= i < m.rows@.len() && (#[trigger] m.rows@[i]).0 == r;
        assert(col_pq_model(m.rows@[i].1) == row_proj(em, r));
    } else {
        if em.contains_key((r, c)) {
            assert(false);
        }
    }
    if exists|i: int| 0 <= i < m.cols@.len() && (#[trigger] m.cols@[i]).0@ == c {
        let i = choose|i: int| 0 <= i < m.cols@.len() && (#[trigger] m.cols@[i]).0@ == c;
        assert(row_pq_model(m.cols@[i].1) == col_proj(em, c));
    } else {
        if em.contains_key((r, c)) {
            assert(false);
        }
    }
}

/// Law: a (row, column) pair absent from the global index — for instance one
/// just popped or removed, whose absence the mutating operation's
/// postcondition states — is absent from its row's local index and from its
/// column's local index as well.
pub proof fn lemma_absent_key_absent_from_indices(m: PriorityMatrix, r: char, c: Seq<char>)
    requires
        m.wf(),
        !m.model().contains_key((r, c)),
    ensures
        !m.row_index(r).contains_key(c),
        !m.col_index(c).contains_key(r),
{
    lemma_indices_agree(m, r, c);
}

} // verus!
