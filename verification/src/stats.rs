//! The live counter store: two monotonically growing row-activity totals.

use vstd::prelude::*;
use vstd::seq_lib::commutative_foldr;
use vstd::seq_lib::lemma_fold_right_permutation;

use crate::snapshot::decode_snapshot;
use crate::snapshot::encode_snapshot;
use crate::snapshot::spec_decode;
use crate::snapshot::spec_encode;

verus! {

/// The exact sum of a batch of increment amounts, in the order they landed.
pub open spec fn total_of(ns: Seq<usize>) -> int
    decreases ns.len(),
{
    if ns.len() == 0 {
        0
    } else {
        total_of(ns.drop_last()) + ns.last()
    }
}

/// Addition as a fold step, for relating `total_of` to `Seq::fold_right`.
spec fn add_amount() -> spec_fn(usize, int) -> int {
    |x: usize, acc: int| acc + x
}

/// `total_of` is the right fold of addition over the batch.
proof fn lemma_total_of_is_fold(ns: Seq<usize>, b: int)
    ensures
        ns.fold_right(add_amount(), b) == b + total_of(ns),
    decreases ns.len(),
{
    if ns.len() > 0 {
        lemma_total_of_is_fold(ns.drop_last(), b + ns.last());
    }
}

/// Law: increments are commutative and none is lost. Two interleavings that
/// deliver the same multiset of increment amounts drive a counter to the same
/// total, the exact sum of the amounts; with `Stats::inc_rows_written`'s
/// (or `inc_rows_read`'s) own contract, a counter that starts at zero ends at
/// exactly that sum whatever order concurrent callers' increments land in.
pub proof fn lemma_increment_order_irrelevant(a: Seq<usize>, b: Seq<usize>)
    requires
        a.to_multiset() == b.to_multiset(),
    ensures
        total_of(a) == total_of(b),
{
    let f = add_amount();
    assert forall|x: usize, y: usize, v: int| #[trigger] f(x, f(y, v)) == f(y, f(x, v)) by {
    }
    assert(commutative_foldr(f));
    lemma_total_of_is_fold(a, 0);
    lemma_total_of_is_fold(b, 0);
    lemma_fold_right_permutation(a, b, f, 0);
}

/// One more increment adds exactly its amount to the batch's total.
pub proof fn lemma_total_of_push(ns: Seq<usize>, n: usize)
    ensures
        total_of(ns.push(n)) == total_of(ns) + n,
{
    assert(ns.push(n).drop_last() =~= ns);
    assert(ns.push(n).last() == n);
}

/// Running totals of row activity since the database was created.
///
/// A `Stats` value is the in-memory counter state; the hosting process keeps
/// one per database instance behind a shared handle and lets a background
/// task persist it on a fixed cadence.
pub struct Stats {
    rows_written: usize,
    rows_read: usize,
}

impl Stats {
    /// The current rows-written total, as contracts see it.
    pub closed spec fn spec_rows_written(self) -> usize {
        self.rows_written
    }

    /// The current rows-read total, as contracts see it.
    pub closed spec fn spec_rows_read(self) -> usize {
        self.rows_read
    }

    /// A fresh store with both totals at zero.
    pub fn new() -> (s: Stats)
        ensures
            s.spec_rows_written() == 0,
            s.spec_rows_read() == 0,
    {
        Stats { rows_written: 0, rows_read: 0 }
    }

    /// The store a database reopens with: the totals of the snapshot document
    /// `bytes` when it parses, zero totals when the file was absent, empty,
    /// truncated or otherwise corrupt.
    pub fn from_snapshot(bytes: &[u8]) -> (s: Stats)
        ensures
            (match spec_decode(bytes@) {
                Some((w, r)) => s.spec_rows_written() == w && s.spec_rows_read() == r,
                None => s.spec_rows_written() == 0 && s.spec_rows_read() == 0,
            }),
    {
        match decode_snapshot(bytes) {
            Some((w, r)) => Stats { rows_written: w, rows_read: r },
            None => Stats { rows_written: 0, rows_read: 0 },
        }
    }

    /// The snapshot document holding the current totals: what one persistence
    /// tick writes to disk.
    pub fn to_snapshot(&self) -> (out: Vec<u8>)
        ensures
            out@ == spec_encode(
                self.spec_rows_written() as nat,
                self.spec_rows_read() as nat,
            ),
    {
        encode_snapshot(self.rows_written, self.rows_read)
    }

    /// increments the number of written rows by n
    pub fn inc_rows_written(&mut self, n: usize)
        requires
            old(self).spec_rows_written() + n <= usize::MAX,
        ensures
            final(self).spec_rows_written() == old(self).spec_rows_written() + n,
            final(self).spec_rows_read() == old(self).spec_rows_read(),
    {
        self.rows_written = self.rows_written + n;
    }

    /// increments the number of read rows by n
    pub fn inc_rows_read(&mut self, n: usize)
        requires
            old(self).spec_rows_read() + n <= usize::MAX,
        ensures
            final(self).spec_rows_read() == old(self).spec_rows_read() + n,
            final(self).spec_rows_written() == old(self).spec_rows_written(),
    {
        self.rows_read = self.rows_read + n;
    }

    /// returns the total number of rows read since this database was created
    pub fn rows_read(&self) -> (n: usize)
        ensures
            n == self.spec_rows_read(),
    {
        self.rows_read
    }

    /// returns the total number of rows written since this database was created
    pub fn rows_written(&self) -> (n: usize)
        ensures
            n == self.spec_rows_written(),
    {
        self.rows_written
    }
}

} // verus!
