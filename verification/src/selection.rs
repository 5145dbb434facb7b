//! Chosen positions of a sequence, listed in any order: what they hold and
//! what sums over them come to.

use crate::topology::leaving_without;
use crate::topology::other_than;
use crate::topology::swap_removed;
use vstd::prelude::*;
use vstd::seq_lib::to_multiset_build;
use vstd::seq_lib::to_multiset_remove;

verus! {

/// The sum of `term(k)` over the positions `k` below `n` that `pick` chooses.
pub open spec fn sum_where(n: nat, pick: spec_fn(int) -> bool, term: spec_fn(int) -> int) -> int
    decreases n,
{
    if n == 0 {
        0
    } else {
        sum_where((n - 1) as nat, pick, term) + if pick(n - 1) {
            term(n - 1)
        } else {
            0
        }
    }
}

/// The sum of `term(k)` over the positions `k` that `at` lists.
pub open spec fn sum_along(at: Seq<int>, term: spec_fn(int) -> int) -> int
    decreases at.len(),
{
    if at.len() == 0 {
        0
    } else {
        sum_along(at.drop_last(), term) + term(at.last())
    }
}

/// `at` lists, each once and in any order, the positions below `n` that `pick`
/// chooses.
pub open spec fn enumerates(n: nat, pick: spec_fn(int) -> bool, at: Seq<int>) -> bool {
    &&& forall|j: int| 0 <= j < at.len() ==> 0 <= #[trigger] at[j] < n && pick(at[j])
    &&& forall|i: int, j: int| 0 <= i < j < at.len() ==> at[i] != at[j]
    &&& forall|k: int| 0 <= k < n && #[trigger] pick(k) ==> at.contains(k)
}

/// Taking one position out of a list takes its term out of the sum.
pub proof fn lemma_sum_without(at: Seq<int>, term: spec_fn(int) -> int, j: int)
    requires
        0 <= j < at.len(),
    ensures
        sum_along(at, term) == sum_along(at.remove(j), term) + term(at[j]),
    decreases at.len(),
{
    if j == at.len() - 1 {
        assert(at.remove(j) =~= at.drop_last());
    } else {
        lemma_sum_without(at.drop_last(), term, j);
        assert(at.drop_last().remove(j) =~= at.remove(j).drop_last());
        assert(at.remove(j).last() == at.last());
    }
}

/// A sum over chosen positions does not depend on the order in which they are
/// listed.
pub proof fn lemma_sum_enumerated(
    n: nat,
    pick: spec_fn(int) -> bool,
    term: spec_fn(int) -> int,
    at: Seq<int>,
)
    requires
        enumerates(n, pick, at),
    ensures
        sum_along(at, term) == sum_where(n, pick, term),
    decreases n,
{
    if n == 0 {
        if at.len() > 0 {
            assert(0 <= at[0] < n);
        }
    } else {
        let below = (n - 1) as nat;
        if pick(n - 1) {
            assert(at.contains(n - 1));
            let j = choose|j: int| 0 <= j < at.len() && at[j] == n - 1;
            let rest = at.remove(j);
            assert forall|i: int| 0 <= i < rest.len() implies 0 <= #[trigger] rest[i] < below && pick(
                rest[i],
            ) by {
                if i < j {
                    assert(rest[i] == at[i]);
                } else {
                    assert(rest[i] == at[i + 1]);
                }
            }
            assert forall|a: int, b: int| 0 <= a < b < rest.len() implies rest[a] != rest[b] by {
                let a0 = if a < j { a } else { a + 1 };
                let b0 = if b < j { b } else { b + 1 };
                assert(rest[a] == at[a0] && rest[b] == at[b0]);
            }
            assert forall|k: int| 0 <= k < below && #[trigger] pick(k) implies rest.contains(k) by {
                assert(at.contains(k));
                let i = choose|i: int| 0 <= i < at.len() && at[i] == k;
                if i < j {
                    assert(rest[i] == k);
                } else {
                    assert(rest[i - 1] == k);
                }
            }
            lemma_sum_enumerated(below, pick, term, rest);
            lemma_sum_without(at, term, j);
        } else {
            assert forall|i: int| 0 <= i < at.len() implies 0 <= #[trigger] at[i] < below && pick(
                at[i],
            ) by {}
            lemma_sum_enumerated(below, pick, term, at);
        }
    }
}

/// The elements of `s` at the positions that `at` lists.
pub open spec fn listed<A>(s: Seq<A>, at: Seq<int>) -> Seq<A> {
    Seq::new(at.len(), |j: int| s[at[j]])
}

/// Where `at` lists, each once and in any order, the positions of the elements
/// that `keep` accepts, the elements listed are those that `filter` keeps, up
/// to their order.
pub proof fn lemma_listed_filter<A>(s: Seq<A>, keep: spec_fn(A) -> bool, at: Seq<int>)
    requires
        forall|j: int| 0 <= j < at.len() ==> 0 <= #[trigger] at[j] < s.len() && keep(s[at[j]]),
        forall|i: int, j: int| 0 <= i < j < at.len() ==> at[i] != at[j],
        forall|k: int| 0 <= k < s.len() && keep(#[trigger] s[k]) ==> at.contains(k),
    ensures
        listed(s, at).to_multiset() == s.filter(keep).to_multiset(),
    decreases s.len(),
{
    reveal(Seq::filter);
    if s.len() == 0 {
        if at.len() > 0 {
            assert(0 <= at[0] < s.len());
        }
        assert(listed(s, at) =~= s.filter(keep));
    } else {
        let front = s.drop_last();
        let end = s.len() - 1;
        if keep(s.last()) {
            assert(keep(s[end]));
            assert(at.contains(end));
            let j = choose|j: int| 0 <= j < at.len() && at[j] == end;
            let rest = at.remove(j);
            assert forall|i: int| 0 <= i < rest.len() implies 0 <= #[trigger] rest[i] < front.len()
                && keep(front[rest[i]]) by {
                if i < j {
                    assert(rest[i] == at[i]);
                } else {
                    assert(rest[i] == at[i + 1]);
                }
            }
            assert forall|a: int, b: int| 0 <= a < b < rest.len() implies rest[a] != rest[b] by {
                let a0 = if a < j { a } else { a + 1 };
                let b0 = if b < j { b } else { b + 1 };
                assert(rest[a] == at[a0] && rest[b] == at[b0]);
            }
            assert forall|k: int| 0 <= k < front.len() && keep(#[trigger] front[k]) implies rest.contains(
                k,
            ) by {
                assert(keep(s[k]));
                assert(at.contains(k));
                let i = choose|i: int| 0 <= i < at.len() && at[i] == k;
                if i < j {
                    assert(rest[i] == k);
                } else {
                    assert(rest[i - 1] == k);
                }
            }
            lemma_listed_filter(front, keep, rest);
            let all = listed(s, at);
            assert(all.remove(j) =~= listed(front, rest)) by {
                assert forall|i: int| 0 <= i < rest.len() implies all.remove(j)[i] == listed(front, rest)[i] by {
                    if i < j {
                        assert(rest[i] == at[i]);
                    } else {
                        assert(rest[i] == at[i + 1]);
                    }
                }
            }
            to_multiset_remove(all, j);
            to_multiset_build(front.filter(keep), s.last());
            assert(all[j] == s.last());
            all.to_multiset_ensures();
            assert(all.contains(all[j]));
            assert(all.to_multiset().count(s.last()) > 0);
            assert(all.to_multiset() =~= all.remove(j).to_multiset().insert(s.last()));
            assert(s.filter(keep) == front.filter(keep).push(s.last()));
        } else {
            assert forall|i: int| 0 <= i < at.len() implies 0 <= #[trigger] at[i] < front.len() && keep(
                front[at[i]],
            ) by {
                assert(keep(s[at[i]]));
            }
            assert forall|k: int| 0 <= k < front.len() && keep(#[trigger] front[k]) implies at.contains(
                k,
            ) by {
                assert(keep(s[k]));
            }
            lemma_listed_filter(front, keep, at);
            assert(listed(s, at) =~= listed(front, at));
            assert(s.filter(keep) == front.filter(keep));
        }
    }
}

/// How often `filter` keeps an element: as often as it occurs, if `keep`
/// accepts it, and never otherwise.
pub proof fn lemma_filter_count<A>(s: Seq<A>, keep: spec_fn(A) -> bool, x: A)
    ensures
        s.filter(keep).to_multiset().count(x) == (if keep(x) {
            s.to_multiset().count(x)
        } else {
            0
        }),
    decreases s.len(),
{
    reveal(Seq::filter);
    if s.len() == 0 {
        assert(s.filter(keep) == s);
        s.to_multiset_ensures();
        assert(!s.contains(x));
    } else {
        let front = s.drop_last();
        lemma_filter_count(front, keep, x);
        assert(s =~= front.push(s.last()));
        to_multiset_build(front, s.last());
        assert(s.to_multiset().count(x) == front.to_multiset().count(x) + if x == s.last() {
            1int
        } else {
            0int
        });
        if keep(s.last()) {
            to_multiset_build(front.filter(keep), s.last());
            assert(s.filter(keep) == front.filter(keep).push(s.last()));
        } else {
            assert(s.filter(keep) == front.filter(keep));
        }
    }
}

/// The sequence without the element at `k`, whose place the last element took,
/// holds what the sequence held but for that one element.
pub proof fn lemma_swap_removed<A>(s: Seq<A>, k: int)
    requires
        0 <= k < s.len(),
    ensures
        s.update(k, s.last()).drop_last().to_multiset() == s.to_multiset().remove(s[k]),
{
    let front = s.drop_last();
    let last = s.last();
    assert(s =~= front.push(last));
    to_multiset_build(front, last);
    if k == s.len() - 1 {
        assert(s.update(k, last).drop_last() =~= front);
        assert(front.to_multiset().insert(last).remove(last) =~= front.to_multiset());
    } else {
        let moved = front.update(k, last);
        assert(s.update(k, last).drop_last() =~= moved);
        assert(moved.remove(k) =~= front.remove(k));
        to_multiset_remove(moved, k);
        to_multiset_remove(front, k);
        moved.to_multiset_ensures();
        front.to_multiset_ensures();
        assert(moved.contains(moved[k]));
        assert(front.contains(front[k]));
        assert(moved.to_multiset() =~= front.to_multiset().remove(front[k]).insert(last));
        assert(front.to_multiset().insert(last).remove(front[k]) =~= front.to_multiset().remove(
            front[k],
        ).insert(last));
    }
}

/// Taking out an element that `keep` does not accept, with the last element put
/// in its place, changes nothing in what `filter` keeps, up to the order.
pub proof fn lemma_filter_swap_removed<A>(s: Seq<A>, keep: spec_fn(A) -> bool, k: int)
    requires
        0 <= k < s.len(),
        !keep(s[k]),
    ensures
        s.update(k, s.last()).drop_last().filter(keep).to_multiset() == s.filter(keep).to_multiset(),
{
    let less = s.update(k, s.last()).drop_last();
    lemma_swap_removed(s, k);
    assert forall|x: A| less.filter(keep).to_multiset().count(x) == s.filter(keep).to_multiset().count(
        x,
    ) by {
        lemma_filter_count(less, keep, x);
        lemma_filter_count(s, keep, x);
    }
    assert(less.filter(keep).to_multiset() =~= s.filter(keep).to_multiset());
}

/// Where `keep` accepts every element, `filter` keeps the sequence as it is.
pub proof fn lemma_filter_all<A>(s: Seq<A>, keep: spec_fn(A) -> bool)
    requires
        forall|i: int| 0 <= i < s.len() ==> keep(#[trigger] s[i]),
    ensures
        s.filter(keep) == s,
    decreases s.len(),
{
    reveal(Seq::filter);
    if s.len() > 0 {
        let front = s.drop_last();
        assert forall|i: int| 0 <= i < front.len() implies keep(#[trigger] front[i]) by {
            assert(front[i] == s[i]);
        }
        lemma_filter_all(front, keep);
        assert(keep(s[s.len() - 1]));
        assert(front.push(s.last()) =~= s);
    }
}

/// The sum of what the elements of `s` are worth.
pub open spec fn sum_of<A>(s: Seq<A>, worth: spec_fn(A) -> int) -> int
    decreases s.len(),
{
    if s.len() == 0 {
        0
    } else {
        sum_of(s.drop_last(), worth) + worth(s.last())
    }
}

/// A sum over chosen positions is the sum of what the elements are worth, where
/// an element at a chosen position is worth its term and any other is worth
/// nothing.
pub proof fn lemma_sum_where_of<A>(
    s: Seq<A>,
    n: nat,
    pick: spec_fn(int) -> bool,
    term: spec_fn(int) -> int,
    worth: spec_fn(A) -> int,
)
    requires
        n <= s.len(),
        forall|k: int|
            0 <= k < n ==> worth(#[trigger] s[k]) == (if pick(k) {
                term(k)
            } else {
                0
            }),
    ensures
        sum_where(n, pick, term) == sum_of(s.take(n as int), worth),
    decreases n,
{
    if n > 0 {
        lemma_sum_where_of(s, (n - 1) as nat, pick, term, worth);
        assert(s.take(n as int).drop_last() =~= s.take(n - 1));
        assert(s.take(n as int).last() == s[n - 1]);
    }
}

/// Taking one element out of a sequence takes what it is worth out of the sum.
pub proof fn lemma_sum_of_without<A>(s: Seq<A>, worth: spec_fn(A) -> int, j: int)
    requires
        0 <= j < s.len(),
    ensures
        sum_of(s, worth) == sum_of(s.remove(j), worth) + worth(s[j]),
    decreases s.len(),
{
    if j == s.len() - 1 {
        assert(s.remove(j) =~= s.drop_last());
    } else {
        lemma_sum_of_without(s.drop_last(), worth, j);
        assert(s.drop_last().remove(j) =~= s.remove(j).drop_last());
        assert(s.remove(j).last() == s.last());
    }
}

/// Sequences that hold the same elements as often, in whatever order, come to
/// the same sum.
pub proof fn lemma_sum_of_rearranged<A>(one: Seq<A>, other: Seq<A>, worth: spec_fn(A) -> int)
    requires
        one.to_multiset() == other.to_multiset(),
    ensures
        sum_of(one, worth) == sum_of(other, worth),
    decreases one.len(),
{
    one.to_multiset_ensures();
    other.to_multiset_ensures();
    if one.len() > 0 {
        let x = one.last();
        assert(one.contains(x)) by {
            assert(one[one.len() - 1] == x);
        }
        assert(one.to_multiset().count(x) > 0);
        assert(other.to_multiset().count(x) > 0);
        assert(other.contains(x));
        let j = choose|j: int| 0 <= j < other.len() && other[j] == x;
        assert(one.remove(one.len() - 1) =~= one.drop_last());
        to_multiset_remove(one, one.len() - 1);
        to_multiset_remove(other, j);
        lemma_sum_of_rearranged(one.drop_last(), other.remove(j), worth);
        lemma_sum_of_without(other, worth, j);
    } else {
        if other.len() > 0 {
            assert(other.to_multiset().len() == 0);
        }
    }
}

/// Where two ways to reckon the worth agree on every element of a sequence,
/// the sums agree.
pub proof fn lemma_sum_of_same<A>(s: Seq<A>, one: spec_fn(A) -> int, other: spec_fn(A) -> int)
    requires
        forall|i: int| 0 <= i < s.len() ==> one(#[trigger] s[i]) == other(s[i]),
    ensures
        sum_of(s, one) == sum_of(s, other),
    decreases s.len(),
{
    if s.len() > 0 {
        let front = s.drop_last();
        assert forall|i: int| 0 <= i < front.len() implies one(#[trigger] front[i]) == other(
            front[i],
        ) by {
            assert(front[i] == s[i]);
        }
        lemma_sum_of_same(front, one, other);
        assert(one(s[s.len() - 1]) == other(s[s.len() - 1]));
    }
}

/// The elements of `s` at the positions that `at` lists, as a graph counts
/// them.
pub open spec fn picked<A>(s: Seq<A>, at: Seq<usize>) -> Seq<A> {
    Seq::new(at.len(), |j: int| s[at[j] as int])
}

/// Leaving out the position of an element that `keep` does not accept changes
/// nothing in what `filter` keeps of the elements listed.
pub proof fn lemma_picked_skip<A>(s: Seq<A>, at: Seq<usize>, position: usize, keep: spec_fn(A) -> bool)
    requires
        !keep(s[position as int]),
    ensures
        picked(s, at.filter(other_than(position))).filter(keep) == picked(s, at).filter(keep),
    decreases at.len(),
{
    reveal(Seq::filter);
    if at.len() == 0 {
        assert(picked(s, at.filter(other_than(position))) =~= picked(s, at));
    } else {
        let front = at.drop_last();
        let x = at.last();
        let kept = front.filter(other_than(position));
        lemma_picked_skip(s, front, position, keep);
        assert(picked(s, at).drop_last() =~= picked(s, front));
        assert(picked(s, at).last() == s[x as int]);
        if x != position {
            assert(at.filter(other_than(position)) == kept.push(x));
            assert(picked(s, kept.push(x)).drop_last() =~= picked(s, kept));
            assert(picked(s, kept.push(x)).last() == s[x as int]);
        } else {
            assert(at.filter(other_than(position)) == kept);
        }
    }
}

/// Once the element at `position` has left a sequence and the last element has
/// taken its place, the elements listed in the order that remains are those
/// that were listed, but for the one that left, so far as `keep` accepts
/// them and did not accept that one.
pub proof fn lemma_picked_without<A>(
    s: Seq<A>,
    at: Seq<usize>,
    position: usize,
    last: usize,
    keep: spec_fn(A) -> bool,
)
    requires
        position <= last,
        last + 1 == s.len(),
        forall|j: int| 0 <= j < at.len() ==> #[trigger] at[j] < s.len(),
        !keep(s[position as int]),
    ensures
        picked(swap_removed(s, position as int), leaving_without(at, position, last)).filter(keep)
            == picked(s, at).filter(keep),
{
    let kept = at.filter(other_than(position));
    let less = swap_removed(s, position as int);
    let order = leaving_without(at, position, last);
    assert forall|j: int| 0 <= j < kept.len() implies picked(less, order)[j] == picked(s, kept)[j] by {
        at.lemma_filter_pred(other_than(position), j);
        assert(kept.contains(kept[j]));
        at.lemma_filter_contains_rev(other_than(position), kept[j]);
        let i = choose|i: int| 0 <= i < at.len() && at[i] == kept[j];
        assert(at[i] < s.len());
    }
    assert(picked(less, order) =~= picked(s, kept));
    lemma_picked_skip(s, at, position, keep);
}

/// With terms that are not negative, the sum over the first positions of a list
/// is at most the sum over all of them.
pub proof fn lemma_sum_grows(at: Seq<int>, term: spec_fn(int) -> int, j: int)
    requires
        0 <= j <= at.len(),
        forall|i: int| 0 <= i < at.len() ==> term(#[trigger] at[i]) >= 0,
    ensures
        0 <= sum_along(at.take(j), term) <= sum_along(at, term),
    decreases at.len() - j,
{
    if j == at.len() {
        assert(at.take(j) =~= at);
        lemma_sum_not_negative(at, term);
    } else {
        lemma_sum_grows(at, term, j + 1);
        let front = at.take(j);
        assert(at.take(j + 1).drop_last() =~= front);
        assert(at.take(j + 1).last() == at[j]);
        assert(term(at[j]) >= 0);
        assert forall|i: int| 0 <= i < front.len() implies term(#[trigger] front[i]) >= 0 by {
            assert(front[i] == at[i]);
        }
        lemma_sum_not_negative(front, term);
    }
}

/// With terms that are not negative, a sum is not negative.
pub proof fn lemma_sum_not_negative(at: Seq<int>, term: spec_fn(int) -> int)
    requires
        forall|i: int| 0 <= i < at.len() ==> term(#[trigger] at[i]) >= 0,
    ensures
        sum_along(at, term) >= 0,
    decreases at.len(),
{
    if at.len() > 0 {
        let front = at.drop_last();
        assert forall|i: int| 0 <= i < front.len() implies term(#[trigger] front[i]) >= 0 by {
            assert(front[i] == at[i]);
        }
        lemma_sum_not_negative(front, term);
        assert(term(at[at.len() - 1]) >= 0);
    }
}

} // verus!
