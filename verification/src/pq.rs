//! Trusted boundary around `priority_queue::PriorityQueue`.
//!
//! The matrix keeps three kinds of keyed max-priority queues: the global one,
//! keyed by a (row, column) pair; one per row, keyed by column; and one per
//! column, keyed by row.  Each concrete queue type gets an uninterpreted
//! content model (a finite map from key to weight) and a small set of
//! wrappers whose contracts state, over that model, what the crate's source
//! shows each call does.

use vstd::prelude::*;
use priority_queue::PriorityQueue;

verus! {

#[verifier::external_type_specification]
#[verifier::external_body]
#[verifier::reject_recursive_types(I)]
#[verifier::reject_recursive_types(P)]
#[verifier::reject_recursive_types(H)]
pub struct ExPriorityQueue<I, P, H>(PriorityQueue<I, P, H>);

/// The contents of a global queue: which (row, column) cells are present,
/// and with what weight.
pub uninterp spec fn entry_pq_model(q: PriorityQueue<(char, String), i32>) -> Map<(char, Seq<char>), int>;

/// The contents of one row's local queue: column key to weight.
pub uninterp spec fn col_pq_model(q: PriorityQueue<String, i32>) -> Map<Seq<char>, int>;

/// The contents of one column's local queue: row key to weight.
pub uninterp spec fn row_pq_model(q: PriorityQueue<char, i32>) -> Map<char, int>;

/// Relies on `PriorityQueue::new`: creates an empty queue.
#[verifier::external_body]
pub(crate) fn entry_pq_new() -> (q: PriorityQueue<(char, String), i32>)
    ensures
        forall|k: (char, Seq<char>)| !entry_pq_model(q).contains_key(k),
{
    PriorityQueue::new()
}

/// Relies on `PriorityQueue::push`: inserts the key with the given weight, or,
/// when the key is already present, replaces its weight and returns the old one.
#[verifier::external_body]
pub(crate) fn entry_pq_push(
    q: &mut PriorityQueue<(char, String), i32>,
    row: char,
    col: String,
    weight: i32,
) -> (prev: Option<i32>)
    ensures
        entry_pq_model(*final(q)) == entry_pq_model(*old(q)).insert((row, col@), weight as int),
        prev is Some <==> entry_pq_model(*old(q)).contains_key((row, col@)),
        prev matches Some(p) ==> p as int == entry_pq_model(*old(q))[(row, col@)],
{
    q.push((row, col), weight)
}

/// Relies on `PriorityQueue::peek`: returns a pair whose weight is greatest,
/// or `None` exactly when the queue is empty.  Among equal weights the choice
/// of pair is the crate's own.
#[verifier::external_body]
pub(crate) fn entry_pq_peek(q: &PriorityQueue<(char, String), i32>) -> (r: Option<(char, String, i32)>)
    ensures
        r is None <==> (forall|k: (char, Seq<char>)| !entry_pq_model(*q).contains_key(k)),
        r matches Some(t) ==> entry_pq_model(*q).contains_pair((t.0, t.1@), t.2 as int),
        r matches Some(t) ==> forall|k: (char, Seq<char>)|
            #[trigger] entry_pq_model(*q).contains_key(k) ==> entry_pq_model(*q)[k] <= t.2 as int,
{
    q.peek().map(|(k, w)| (k.0, k.1.clone(), *w))
}

/// Relies on `PriorityQueue::pop`: removes and returns a pair whose weight is
/// greatest, or `None` exactly when the queue is empty.
#[verifier::external_body]
pub(crate) fn entry_pq_pop(q: &mut PriorityQueue<(char, String), i32>) -> (r: Option<(char, String, i32)>)
    ensures
        r is None <==> (forall|k: (char, Seq<char>)| !entry_pq_model(*old(q)).contains_key(k)),
        r is None ==> *final(q) == *old(q),
        r matches Some(t) ==> entry_pq_model(*old(q)).contains_pair((t.0, t.1@), t.2 as int),
        r matches Some(t) ==> forall|k: (char, Seq<char>)|
            #[trigger] entry_pq_model(*old(q)).contains_key(k) ==> entry_pq_model(*old(q))[k] <= t.2 as int,
        r matches Some(t) ==> entry_pq_model(*final(q)) == entry_pq_model(*old(q)).remove((t.0, t.1@)),
{
    q.pop().map(|(k, w)| (k.0, k.1, w))
}

/// Relies on `PriorityQueue::remove`: removes the given key and returns its
/// weight, or returns `None` and leaves the queue unchanged when it is absent.
#[verifier::external_body]
pub(crate) fn entry_pq_remove(
    q: &mut PriorityQueue<(char, String), i32>,
    row: &char,
    col: &String,
) -> (r: Option<i32>)
    ensures
        r is Some <==> entry_pq_model(*old(q)).contains_key((*row, col@)),
        r matches Some(w) ==> w as int == entry_pq_model(*old(q))[(*row, col@)],
        entry_pq_model(*final(q)) == entry_pq_model(*old(q)).remove((*row, col@)),
        r is None ==> *final(q) == *old(q),
{
    q.remove(&(*row, col.clone())).map(|(_, w)| w)
}

/// Relies on `PriorityQueue::get`: looks the key up without mutating, and
/// returns its weight when present.
#[verifier::external_body]
pub(crate) fn entry_pq_get(q: &PriorityQueue<(char, String), i32>, row: &char, col: &String) -> (r: Option<i32>)
    ensures
        r is Some <==> entry_pq_model(*q).contains_key((*row, col@)),
        r matches Some(w) ==> w as int == entry_pq_model(*q)[(*row, col@)],
{
    q.get(&(*row, col.clone())).map(|(_, w)| *w)
}

/// Relies on `PriorityQueue::iter`: visits every element exactly once, in an
/// order the crate leaves unspecified.
#[verifier::external_body]
pub(crate) fn entry_pq_to_vec(q: &PriorityQueue<(char, String), i32>) -> (r: Vec<(char, String, i32)>)
    ensures
        forall|i: int| 0 <= i < r@.len() ==>
            entry_pq_model(*q).contains_pair(((#[trigger] r@[i]).0, r@[i].1@), r@[i].2 as int),
        forall|i: int, j: int| 0 <= i < j < r@.len() ==>
            ((#[trigger] r@[i]).0, r@[i].1@) != ((#[trigger] r@[j]).0, r@[j].1@),
        forall|k: (char, Seq<char>)| #[trigger] entry_pq_model(*q).contains_key(k) ==>
            exists|i: int| 0 <= i < r@.len() && ((#[trigger] r@[i]).0, r@[i].1@) == k,
{
    let mut out = Vec::new();
    for ((row, col), w) in q.iter() {
        out.push((*row, col.clone(), *w));
    }
    out
}

/// Relies on `PriorityQueue::new`: creates an empty queue.
#[verifier::external_body]
pub(crate) fn col_pq_new() -> (q: PriorityQueue<String, i32>)
    ensures
        forall|c: Seq<char>| !col_pq_model(q).contains_key(c),
{
    PriorityQueue::new()
}

/// Relies on `PriorityQueue::push`: inserts the column with the given weight,
/// or replaces a present column's weight and returns the old one.
#[verifier::external_body]
pub(crate) fn col_pq_push(q: &mut PriorityQueue<String, i32>, col: String, weight: i32) -> (prev: Option<i32>)
    ensures
        col_pq_model(*final(q)) == col_pq_model(*old(q)).insert(col@, weight as int),
        prev is Some <==> col_pq_model(*old(q)).contains_key(col@),
        prev matches Some(p) ==> p as int == col_pq_model(*old(q))[col@],
{
    q.push(col, weight)
}

/// Relies on `PriorityQueue::peek`: returns a column whose weight is greatest,
/// or `None` exactly when the queue is empty.
#[verifier::external_body]
pub(crate) fn col_pq_peek(q: &PriorityQueue<String, i32>) -> (r: Option<(String, i32)>)
    ensures
        r is None <==> (forall|c: Seq<char>| !col_pq_model(*q).contains_key(c)),
        r matches Some(t) ==> col_pq_model(*q).contains_pair(t.0@, t.1 as int),
        r matches Some(t) ==> forall|c: Seq<char>|
            #[trigger] col_pq_model(*q).contains_key(c) ==> col_pq_model(*q)[c] <= t.1 as int,
{
    q.peek().map(|(c, w)| (c.clone(), *w))
}

/// Relies on `PriorityQueue::remove`: removes the given column and returns its
/// weight, or returns `None` and leaves the queue unchanged when it is absent.
#[verifier::external_body]
pub(crate) fn col_pq_remove(q: &mut PriorityQueue<String, i32>, col: &String) -> (r: Option<i32>)
    ensures
        r is Some <==> col_pq_model(*old(q)).contains_key(col@),
        r matches Some(w) ==> w as int == col_pq_model(*old(q))[col@],
        col_pq_model(*final(q)) == col_pq_model(*old(q)).remove(col@),
        r is None ==> *final(q) == *old(q),
{
    q.remove(col).map(|(_, w)| w)
}

/// Relies on `PriorityQueue::is_empty`: true exactly when no element is held.
#[verifier::external_body]
pub(crate) fn col_pq_is_empty(q: &PriorityQueue<String, i32>) -> (r: bool)
    ensures
        r <==> (forall|c: Seq<char>| !col_pq_model(*q).contains_key(c)),
{
    q.is_empty()
}

/// Relies on `PriorityQueue::new`: creates an empty queue.
#[verifier::external_body]
pub(crate) fn row_pq_new() -> (q: PriorityQueue<char, i32>)
    ensures
        forall|x: char| !row_pq_model(q).contains_key(x),
{
    PriorityQueue::new()
}

/// Relies on `PriorityQueue::push`: inserts the row with the given weight,
/// or replaces a present row's weight and returns the old one.
#[verifier::external_body]
pub(crate) fn row_pq_push(q: &mut PriorityQueue<char, i32>, row: char, weight: i32) -> (prev: Option<i32>)
    ensures
        row_pq_model(*final(q)) == row_pq_model(*old(q)).insert(row, weight as int),
        prev is Some <==> row_pq_model(*old(q)).contains_key(row),
        prev matches Some(p) ==> p as int == row_pq_model(*old(q))[row],
{
    q.push(row, weight)
}

/// Relies on `PriorityQueue::peek`: returns a row whose weight is greatest,
/// or `None` exactly when the queue is empty.
#[verifier::external_body]
pub(crate) fn row_pq_peek(q: &PriorityQueue<char, i32>) -> (r: Option<(char, i32)>)
    ensures
        r is None <==> (forall|x: char| !row_pq_model(*q).contains_key(x)),
        r matches Some(t) ==> row_pq_model(*q).contains_pair(t.0, t.1 as int),
        r matches Some(t) ==> forall|x: char|
            #[trigger] row_pq_model(*q).contains_key(x) ==> row_pq_model(*q)[x] <= t.1 as int,
{
    q.peek().map(|(x, w)| (*x, *w))
}

/// Relies on `PriorityQueue::remove`: removes the given row and returns its
/// weight, or returns `None` and leaves the queue unchanged when it is absent.
#[verifier::external_body]
pub(crate) fn row_pq_remove(q: &mut PriorityQueue<char, i32>, row: &char) -> (r: Option<i32>)
    ensures
        r is Some <==> row_pq_model(*old(q)).contains_key(*row),
        r matches Some(w) ==> w as int == row_pq_model(*old(q))[*row],
        row_pq_model(*final(q)) == row_pq_model(*old(q)).remove(*row),
        r is None ==> *final(q) == *old(q),
{
    q.remove(row).map(|(_, w)| w)
}

/// Relies on `PriorityQueue::is_empty`: true exactly when no element is held.
#[verifier::external_body]
pub(crate) fn row_pq_is_empty(q: &PriorityQueue<char, i32>) -> (r: bool)
    ensures
        r <==> (forall|x: char| !row_pq_model(*q).contains_key(x)),
{
    q.is_empty()
}

} // verus!
