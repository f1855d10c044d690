use vstd::prelude::*;
use vstd::multiset::Multiset;

verus! {

/// `k` splits `s` into a prefix of zeros `s[..k]` and a suffix of non-zero
/// values `s[k..]`.
pub open spec fn partitioned_at(s: Seq<i32>, k: int) -> bool {
    &&& 0 <= k <= s.len()
    &&& forall|p: int| 0 <= p < k ==> #[trigger] s[p] == 0
    &&& forall|p: int| k <= p < s.len() ==> #[trigger] s[p] != 0
}

/// Some position splits `s` into a zero prefix and a non-zero suffix.
pub open spec fn is_partitioned(s: Seq<i32>) -> bool {
    exists|k: int| partitioned_at(s, k)
}

/// Every element of `s` is zero.
pub open spec fn all_zero(s: Seq<i32>) -> bool {
    forall|p: int| 0 <= p < s.len() ==> #[trigger] s[p] == 0
}

/// The boundary of a partitioned sequence is its number of zeros.
pub proof fn lemma_boundary_is_zero_count(s: Seq<i32>, k: int)
    requires
        partitioned_at(s, k),
    ensures
        s.to_multiset().count(0) == k,
    decreases s.len(),
{
    broadcast use vstd::seq_lib::group_to_multiset_ensures;

    if s.len() == 0 {
        assert(s.to_multiset() =~= Multiset::empty());
    } else {
        let t = s.drop_last();
        let last = s.last();
        assert(s =~= t.push(last));
        if last == 0 {
            assert(k == s.len());
            assert(partitioned_at(t, k - 1));
            lemma_boundary_is_zero_count(t, k - 1);
        } else {
            assert(partitioned_at(t, k));
            lemma_boundary_is_zero_count(t, k);
        }
    }
}

/// Writing `x` over position `i` takes one `s[i]` out of the multiset of
/// `s` and puts one `x` in.
proof fn lemma_update_to_multiset(s: Seq<i32>, i: int, x: i32)
    requires
        0 <= i < s.len(),
    ensures
        s.update(i, x).to_multiset() =~= s.to_multiset().remove(s[i]).insert(x),
{
    broadcast use vstd::seq_lib::group_to_multiset_ensures;

    let t = s.update(i, x);
    assert(t.remove(i) =~= s.remove(i));
    assert(t.to_multiset().remove(x) =~= s.to_multiset().remove(s[i]));
    assert(t.contains(x)) by {
        assert(t[i] == x);
    }
}

/// Exchanging two positions leaves the multiset of a sequence unchanged.
proof fn lemma_swap_to_multiset(s: Seq<i32>, i: int, j: int)
    requires
        0 <= i < s.len(),
        0 <= j < s.len(),
    ensures
        s.update(i, s[j]).update(j, s[i]).to_multiset() =~= s.to_multiset(),
{
    broadcast use vstd::seq_lib::group_to_multiset_ensures;

    let t = s.update(i, s[j]);
    lemma_update_to_multiset(s, i, s[j]);
    lemma_update_to_multiset(t, j, s[i]);
    if i == j {
        assert(s.update(i, s[j]).update(j, s[i]) =~= s);
    } else {
        assert(s.contains(s[i]));
        assert(t.to_multiset().contains(s[j])) by {
            assert(t[i] == s[j]);
        }
    }
}

/// Exchanges the elements at positions `i` and `j` of `v`.
fn swap_at(v: &mut Vec<i32>, i: usize, j: usize)
    requires
        i < old(v)@.len(),
        j < old(v)@.len(),
    ensures
        final(v)@ == old(v)@.update(i as int, old(v)@[j as int]).update(j as int, old(v)@[i as int]),
{
    let a = v[i];
    let b = v[j];
    v.set(i, b);
    v.set(j, a);
}

/// Reorders `v` in place so that all zeros come first, and returns the
/// boundary: the number of zeros, which is also the position of the first
/// non-zero element after the call.
///
/// A single left-to-right pass keeps `v[..i]` all zero and `v[i..j]` all
/// non-zero; a zero found at `j` is exchanged with the first non-zero at `i`.
/// Zeros already in front and non-zeros already behind them are never moved,
/// so a sequence that is already partitioned comes back unchanged.
pub fn push_zero_start(v: &mut Vec<i32>) -> (r: usize)
    ensures
        final(v)@.len() == old(v)@.len(),
        partitioned_at(final(v)@, r as int),
        final(v)@.to_multiset() == old(v)@.to_multiset(),
        r == old(v)@.to_multiset().count(0),
        forall|k: int| partitioned_at(old(v)@, k) ==> r == k,
        is_partitioned(old(v)@) ==> final(v)@ == old(v)@,
        all_zero(old(v)@) ==> r == old(v)@.len() && all_zero(final(v)@),
        old(v)@.len() == 0 ==> r == 0 && final(v)@ == old(v)@,
{
    let ghost start = v@;
    let mut i: usize = 0;
    let mut j: usize = 0;
    while j < v.len()
        invariant
            v@.len() == start.len(),
            i <= j <= v@.len(),
            forall|p: int| 0 <= p < i ==> #[trigger] v@[p] == 0,
            forall|p: int| i <= p < j ==> #[trigger] v@[p] != 0,
            v@.to_multiset() == start.to_multiset(),
            is_partitioned(start) ==> v@ == start,
        decreases v@.len() - j,
    {
        if v[j] == 0 {
            proof {
                lemma_swap_to_multiset(v@, i as int, j as int);
            }
            swap_at(v, i, j);
            i += 1;
        }
        j += 1;
    }
    proof {
        lemma_boundary_is_zero_count(v@, i as int);
        assert forall|k: int| partitioned_at(start, k) implies i == k by {
            lemma_boundary_is_zero_count(start, k);
        }
        if all_zero(start) {
            assert(partitioned_at(start, start.len() as int));
        }
    }
    i
}

} // verus!
