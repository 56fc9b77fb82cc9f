use vstd::prelude::*;

verus! {

/// Inserts `x` into `s` after every element that `x` does not strictly
/// precede, scanning from the back: the step of a stable insertion sort.
pub open spec fn insert_sorted<T>(s: Seq<T>, x: T, before: spec_fn(T, T) -> bool) -> Seq<T>
    decreases s.len(),
{
    if s.len() == 0 {
        seq![x]
    } else if before(x, s.last()) {
        insert_sorted(s.drop_last(), x, before).push(s.last())
    } else {
        s.push(x)
    }
}

/// The stable sort of `s` by the strict order `before`: elements that
/// neither precedes keep their relative order.
pub open spec fn stable_sort<T>(s: Seq<T>, before: spec_fn(T, T) -> bool) -> Seq<T>
    decreases s.len(),
{
    if s.len() == 0 {
        s
    } else {
        insert_sorted(stable_sort(s.drop_last(), before), s.last(), before)
    }
}

/// Inserting at the place found by scanning back over the elements that `x`
/// precedes is `insert_sorted`.
pub proof fn lemma_insert_position<T>(s: Seq<T>, x: T, before: spec_fn(T, T) -> bool, j: int)
    requires
        0 <= j <= s.len(),
        forall|k: int| j <= k < s.len() ==> before(x, #[trigger] s[k]),
        j == 0 || !before(x, s[j - 1]),
    ensures
        insert_sorted(s, x, before) == s.insert(j, x),
    decreases s.len(),
{
    if s.len() == 0 {
        assert(s.insert(j, x) =~= seq![x]);
    } else if j == s.len() {
        assert(s.insert(j, x) =~= s.push(x));
    } else {
        assert(before(x, s[s.len() - 1]));
        lemma_insert_position(s.drop_last(), x, before, j);
        assert(s.drop_last().insert(j, x).push(s.last()) =~= s.insert(j, x));
    }
}

/// Sorting one more element of a sequence inserts it into the sorted prefix.
pub proof fn lemma_sort_prefix_step<T>(s: Seq<T>, before: spec_fn(T, T) -> bool, i: int)
    requires
        0 <= i < s.len(),
    ensures
        stable_sort(s.take(i + 1), before) == insert_sorted(
            stable_sort(s.take(i), before),
            s[i],
            before,
        ),
{
    assert(s.take(i + 1).drop_last() =~= s.take(i));
}

/// `before` is a strict weak order: asymmetric, and whatever lies between
/// two related elements is related to one of them.
pub open spec fn strict_weak_order<T>(before: spec_fn(T, T) -> bool) -> bool {
    &&& forall|a: T, b: T| #[trigger] before(a, b) ==> !before(b, a)
    &&& forall|a: T, b: T, c: T|
        #[trigger] before(a, c) ==> before(a, b) || #[trigger] before(b, c)
}

/// No element of `t` strictly precedes an earlier one.
pub open spec fn sorted_by<T>(t: Seq<T>, before: spec_fn(T, T) -> bool) -> bool {
    forall|i: int, j: int| 0 <= i < j < t.len() ==> !before(#[trigger] t[j], #[trigger] t[i])
}

/// Inserting adds exactly the inserted element.
pub proof fn lemma_insert_sorted_multiset<T>(s: Seq<T>, x: T, before: spec_fn(T, T) -> bool)
    ensures
        insert_sorted(s, x, before).to_multiset() == s.to_multiset().insert(x),
    decreases s.len(),
{
    broadcast use vstd::seq_lib::group_to_multiset_ensures;

    if s.len() == 0 {
        assert(seq![x] =~= s.push(x));
    } else if before(x, s.last()) {
        lemma_insert_sorted_multiset(s.drop_last(), x, before);
        assert(s.drop_last().push(s.last()) =~= s);
        assert(s.drop_last().to_multiset().insert(x).insert(s.last()) =~= s.drop_last().to_multiset().insert(
            s.last(),
        ).insert(x));
    }
}

/// The stable sort is a rearrangement of its input.
pub proof fn lemma_stable_sort_multiset<T>(s: Seq<T>, before: spec_fn(T, T) -> bool)
    ensures
        stable_sort(s, before).to_multiset() == s.to_multiset(),
        stable_sort(s, before).len() == s.len(),
    decreases s.len(),
{
    broadcast use vstd::seq_lib::group_to_multiset_ensures;

    if s.len() > 0 {
        lemma_stable_sort_multiset(s.drop_last(), before);
        lemma_insert_sorted_multiset(stable_sort(s.drop_last(), before), s.last(), before);
        assert(s.drop_last().push(s.last()) =~= s);
    }
    assert(stable_sort(s, before).len() == stable_sort(s, before).to_multiset().len());
    assert(s.len() == s.to_multiset().len());
}

/// Inserting into a sorted sequence keeps it sorted.
pub proof fn lemma_insert_sorted_sorted<T>(s: Seq<T>, x: T, before: spec_fn(T, T) -> bool)
    requires
        strict_weak_order(before),
        sorted_by(s, before),
    ensures
        sorted_by(insert_sorted(s, x, before), before),
    decreases s.len(),
{
    broadcast use vstd::seq_lib::group_to_multiset_ensures;

    if s.len() > 0 {
        let last = s.last();
        let init = s.drop_last();
        if before(x, last) {
            lemma_insert_sorted_sorted(init, x, before);
            let r = insert_sorted(init, x, before);
            lemma_insert_sorted_multiset(init, x, before);
            assert forall|i: int| 0 <= i < r.len() implies !before(last, #[trigger] r[i]) by {
                assert(r.to_multiset().count(r[i]) > 0);
                if r[i] != x {
                    assert(init.to_multiset().count(r[i]) > 0);
                    assert(init.contains(r[i]));
                    let m = choose|m: int| 0 <= m < init.len() && init[m] == r[i];
                    assert(s[m] == r[i]);
                    assert(!before(s[s.len() - 1], s[m]));
                }
            }
            let out = r.push(last);
            assert forall|i: int, j: int| 0 <= i < j < out.len() implies !before(
                #[trigger] out[j],
                #[trigger] out[i],
            ) by {
                if j < r.len() {
                    assert(out[j] == r[j] && out[i] == r[i]);
                } else {
                    assert(out[i] == r[i]);
                }
            }
        } else {
            let out = s.push(x);
            assert forall|i: int, j: int| 0 <= i < j < out.len() implies !before(
                #[trigger] out[j],
                #[trigger] out[i],
            ) by {
                if j < s.len() {
                    assert(out[j] == s[j] && out[i] == s[i]);
                } else if i < s.len() - 1 {
                    assert(!before(s[s.len() - 1], s[i]));
                    if before(x, s[i]) {
                        assert(before(x, last) || before(last, s[i]));
                    }
                }
            }
        }
    }
}

/// Under a strict weak order the stable sort is sorted.
pub proof fn lemma_stable_sort_sorted<T>(s: Seq<T>, before: spec_fn(T, T) -> bool)
    requires
        strict_weak_order(before),
    ensures
        sorted_by(stable_sort(s, before), before),
    decreases s.len(),
{
    if s.len() > 0 {
        lemma_stable_sort_sorted(s.drop_last(), before);
        lemma_insert_sorted_sorted(stable_sort(s.drop_last(), before), s.last(), before);
    }
}

} // verus!
