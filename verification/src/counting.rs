use vstd::prelude::*;

verus! {

/// Number of `true` entries in a boolean mask.
pub open spec fn count_true(s: Seq<bool>) -> nat
    decreases s.len(),
{
    if s.len() == 0 {
        0
    } else {
        count_true(s.drop_last()) + if s.last() {
            1nat
        } else {
            0nat
        }
    }
}

/// Appending an entry adds one to the count exactly when it is `true`.
pub proof fn lemma_count_true_push(s: Seq<bool>, b: bool)
    ensures
        count_true(s.push(b)) == count_true(s) + if b {
            1nat
        } else {
            0nat
        },
{
    assert(s.push(b).drop_last() =~= s);
}

/// Extending a prefix by one position adds the entry at that position.
pub proof fn lemma_count_true_take_step(s: Seq<bool>, k: int)
    requires
        0 <= k < s.len(),
    ensures
        count_true(s.take(k + 1)) == count_true(s.take(k)) + if s[k] {
            1nat
        } else {
            0nat
        },
{
    assert(s.take(k + 1).drop_last() =~= s.take(k));
    assert(s.take(k + 1).last() == s[k]);
}

/// The whole sequence is its own full prefix.
pub proof fn lemma_count_true_take_all(s: Seq<bool>)
    ensures
        count_true(s.take(s.len() as int)) == count_true(s),
{
    assert(s.take(s.len() as int) =~= s);
}

/// Overwriting one entry moves the count by the difference of the old and
/// new values.
pub proof fn lemma_count_true_update(s: Seq<bool>, j: int, b: bool)
    requires
        0 <= j < s.len(),
    ensures
        count_true(s.update(j, b)) + if s[j] {
            1nat
        } else {
            0nat
        } == count_true(s) + if b {
            1nat
        } else {
            0nat
        },
    decreases s.len(),
{
    if j == s.len() - 1 {
        assert(s.update(j, b).drop_last() =~= s.drop_last());
        assert(s.update(j, b).last() == b);
    } else {
        lemma_count_true_update(s.drop_last(), j, b);
        assert(s.update(j, b).drop_last() =~= s.drop_last().update(j, b));
        assert(s.update(j, b).last() == s.last());
    }
}

} // verus!
