use vstd::prelude::*;

use crate::transaction::{views, Transaction, TransactionView};

verus! {

/// How two sequences of transactions differ.
#[derive(Debug)]
pub enum Comparison {
    /// Both hold the same transactions in the same order.
    Equal,
    /// The sequences differ in length: the two lengths.
    CountMismatch(usize, usize),
    /// Same length; the 1-based positions where the transactions differ, ascending.
    Mismatches(Vec<usize>),
}

/// The 1-based positions among the first `n` where `a` and `b` differ, ascending.
pub open spec fn mismatch_positions(
    a: Seq<TransactionView>,
    b: Seq<TransactionView>,
    n: nat,
) -> Seq<usize>
    decreases n,
{
    if n == 0 {
        seq![]
    } else if a[n - 1] != b[n - 1] {
        mismatch_positions(a, b, (n - 1) as nat).push(n as usize)
    } else {
        mismatch_positions(a, b, (n - 1) as nat)
    }
}

/// Positions where two sequences of the same length differ exist exactly when they differ.
pub proof fn lemma_mismatch_positions_empty(a: Seq<TransactionView>, b: Seq<TransactionView>, n: nat)
    requires
        n <= a.len(),
        n <= b.len(),
    ensures
        mismatch_positions(a, b, n).len() == 0 <==> a.take(n as int) == b.take(n as int),
    decreases n,
{
    if n > 0 {
        lemma_mismatch_positions_empty(a, b, (n - 1) as nat);
        if a.take(n as int) == b.take(n as int) {
            assert(a.take(n - 1) =~= a.take(n as int).drop_last());
            assert(b.take(n - 1) =~= b.take(n as int).drop_last());
            assert(a[n - 1] == a.take(n as int)[n - 1]);
            assert(b[n - 1] == b.take(n as int)[n - 1]);
        } else if a[n - 1] == b[n - 1] && a.take(n - 1) == b.take(n - 1) {
            assert(a.take(n as int) =~= a.take(n - 1).push(a[n - 1]));
            assert(b.take(n as int) =~= b.take(n - 1).push(b[n - 1]));
        }
    } else {
        assert(a.take(0) =~= b.take(0));
    }
}

/// Compares two sequences of transactions: equal, of different lengths, or the
/// positions where they differ.
pub fn compare_transactions(a: &[Transaction], b: &[Transaction]) -> (r: Comparison)
    ensures
        r is Equal <==> views(a@) == views(b@),
        a@.len() != b@.len() ==> (r matches Comparison::CountMismatch(x, y) && x == a@.len() && y
            == b@.len()),
        a@.len() == b@.len() && views(a@) != views(b@) ==> (r matches Comparison::Mismatches(v)
            && v@ == mismatch_positions(views(a@), views(b@), a@.len())),
{
    if a.len() != b.len() {
        return Comparison::CountMismatch(a.len(), b.len());
    }
    let ghost va = views(a@);
    let ghost vb = views(b@);
    let mut found: Vec<usize> = Vec::new();
    let mut i: usize = 0;
    while i < a.len()
        invariant
            a@.len() == b@.len(),
            i <= a@.len(),
            va == views(a@),
            vb == views(b@),
            found@ == mismatch_positions(va, vb, i as nat),
        decreases a@.len() - i,
    {
        if a[i] != b[i] {
            found.push(i + 1);
        }
        i = i + 1;
    }
    proof {
        lemma_mismatch_positions_empty(va, vb, a@.len());
        assert(va.take(a@.len() as int) =~= va);
        assert(vb.take(a@.len() as int) =~= vb);
    }
    if found.len() == 0 {
        Comparison::Equal
    } else {
        Comparison::Mismatches(found)
    }
}

} // verus!
