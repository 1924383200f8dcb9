//! Stable sorting of tagged points along one axis.

use vstd::prelude::*;
use crate::vec2::Vec2;

verus! {

/// The number by which a tagged point is ordered along `axis`.
pub open spec fn key_of(p: (Vec2, usize), axis: int) -> int {
    p.0.coord(axis)
}

/// `s` ascends along `axis`.
pub open spec fn is_sorted(s: Seq<(Vec2, usize)>, axis: int) -> bool {
    forall|i: int, j: int| 0 <= i <= j < s.len() ==> key_of(s[i], axis) <= key_of(s[j], axis)
}

/// `s` with `p` put in behind every element that does not come after it.
pub open spec fn insert_stable(s: Seq<(Vec2, usize)>, p: (Vec2, usize), axis: int) -> Seq<
    (Vec2, usize),
>
    decreases s.len(),
{
    if s.len() == 0 || key_of(s.last(), axis) <= key_of(p, axis) {
        s.push(p)
    } else {
        insert_stable(s.drop_last(), p, axis).push(s.last())
    }
}

/// The elements of `s` in ascending order along `axis`, those with equal
/// keys in the order in which they stand in `s`.
pub open spec fn stable_sort(s: Seq<(Vec2, usize)>, axis: int) -> Seq<(Vec2, usize)>
    decreases s.len(),
{
    if s.len() == 0 {
        s
    } else {
        insert_stable(stable_sort(s.drop_last(), axis), s.last(), axis)
    }
}

/// `a` and `b` merged from their ends: of the two last elements the later
/// one goes last, and that of `b` where they are equal.
pub open spec fn merge_stable(a: Seq<(Vec2, usize)>, b: Seq<(Vec2, usize)>, axis: int) -> Seq<
    (Vec2, usize),
>
    decreases a.len() + b.len(),
{
    if a.len() == 0 {
        b
    } else if b.len() == 0 {
        a
    } else if key_of(a.last(), axis) <= key_of(b.last(), axis) {
        merge_stable(a, b.drop_last(), axis).push(b.last())
    } else {
        merge_stable(a.drop_last(), b, axis).push(a.last())
    }
}

/// Inserting keeps every element, adds the new one and keeps the order.
pub proof fn lemma_insert_stable(s: Seq<(Vec2, usize)>, p: (Vec2, usize), axis: int)
    ensures
        insert_stable(s, p, axis).len() == s.len() + 1,
        insert_stable(s, p, axis).to_multiset() == s.to_multiset().insert(p),
        is_sorted(s, axis) ==> is_sorted(insert_stable(s, p, axis), axis),
    decreases s.len(),
{
    let r = insert_stable(s, p, axis);
    vstd::seq_lib::to_multiset_build(s, p);
    if s.len() == 0 || key_of(s.last(), axis) <= key_of(p, axis) {
        if is_sorted(s, axis) {
            assert forall|i: int, j: int| 0 <= i <= j < r.len() implies key_of(r[i], axis)
                <= key_of(r[j], axis) by {
                if j == s.len() && i < s.len() {
                    assert(key_of(s[i], axis) <= key_of(s[s.len() - 1], axis));
                }
            }
        }
    } else {
        let front = s.drop_last();
        let t = insert_stable(front, p, axis);
        lemma_insert_stable(front, p, axis);
        assert(s =~= front.push(s.last()));
        vstd::seq_lib::to_multiset_build(front, s.last());
        vstd::seq_lib::to_multiset_build(t, s.last());
        assert(r.to_multiset() =~= s.to_multiset().insert(p));
        if is_sorted(s, axis) {
            assert(is_sorted(front, axis)) by {
                assert forall|i: int, j: int| 0 <= i <= j < front.len() implies key_of(
                    front[i],
                    axis,
                ) <= key_of(front[j], axis) by {
                    assert(key_of(s[i], axis) <= key_of(s[j], axis));
                }
            }
            // every element of `t` is `p` or an element of `front`
            assert forall|i: int, j: int| 0 <= i <= j < r.len() implies key_of(r[i], axis)
                <= key_of(r[j], axis) by {
                if j == t.len() && i < t.len() {
                    vstd::seq_lib::to_multiset_contains(t, t[i]);
                    vstd::seq_lib::to_multiset_contains(front, t[i]);
                    assert(t.contains(t[i]));
                    if t[i] != p {
                        assert(front.contains(t[i]));
                        let k = choose|k: int| 0 <= k < front.len() && front[k] == t[i];
                        assert(key_of(s[k], axis) <= key_of(s[s.len() - 1], axis));
                    }
                } else if j < t.len() {
                    assert(key_of(t[i], axis) <= key_of(t[j], axis));
                }
            }
        }
    }
}

/// Sorting keeps the length and the elements, and the result ascends.
pub proof fn lemma_stable_sort(s: Seq<(Vec2, usize)>, axis: int)
    ensures
        stable_sort(s, axis).len() == s.len(),
        stable_sort(s, axis).to_multiset() == s.to_multiset(),
        is_sorted(stable_sort(s, axis), axis),
    decreases s.len(),
{
    if s.len() > 0 {
        let front = s.drop_last();
        lemma_stable_sort(front, axis);
        lemma_insert_stable(stable_sort(front, axis), s.last(), axis);
        assert(s =~= front.push(s.last()));
        vstd::seq_lib::to_multiset_build(front, s.last());
    }
}

/// A sequence of at most one element is sorted as it stands.
pub proof fn lemma_stable_sort_short(s: Seq<(Vec2, usize)>, axis: int)
    requires
        s.len() <= 1,
    ensures
        stable_sort(s, axis) == s,
{
    if s.len() == 1 {
        assert(stable_sort(s.drop_last(), axis) == s.drop_last());
        assert(s.drop_last().push(s.last()) =~= s);
    }
}

/// What the last step of a merge was, whichever side is empty.
proof fn lemma_merge_last(a: Seq<(Vec2, usize)>, b: Seq<(Vec2, usize)>, axis: int)
    requires
        a.len() + b.len() > 0,
    ensures
        b.len() > 0 && (a.len() == 0 || key_of(a.last(), axis) <= key_of(b.last(), axis))
            ==> merge_stable(a, b, axis) == merge_stable(a, b.drop_last(), axis).push(b.last()),
        a.len() > 0 && (b.len() == 0 || key_of(a.last(), axis) > key_of(b.last(), axis))
            ==> merge_stable(a, b, axis) == merge_stable(a.drop_last(), b, axis).push(a.last()),
{
    if a.len() == 0 {
        assert(b.drop_last().push(b.last()) =~= b);
    } else if b.len() == 0 {
        assert(a.drop_last().push(a.last()) =~= a);
        assert(merge_stable(a.drop_last(), b, axis) == a.drop_last());
    }
}

/// Inserting into the second of two merged sequences is inserting into the
/// merged sequence.
proof fn lemma_merge_insert(
    a: Seq<(Vec2, usize)>,
    b: Seq<(Vec2, usize)>,
    p: (Vec2, usize),
    axis: int,
)
    ensures
        merge_stable(a, insert_stable(b, p, axis), axis) == insert_stable(
            merge_stable(a, b, axis),
            p,
            axis,
        ),
    decreases a.len() + b.len(),
{
    let bp = insert_stable(b, p, axis);
    let m = merge_stable(a, b, axis);
    lemma_insert_stable(b, p, axis);
    lemma_merge_last(a, bp, axis);
    if a.len() + b.len() > 0 {
        lemma_merge_last(a, b, axis);
    }
    if b.len() == 0 || key_of(b.last(), axis) <= key_of(p, axis) {
        // `p` goes to the end of `b`
        assert(bp.drop_last() =~= b);
        assert(bp.last() == p);
        if a.len() == 0 {
        } else if key_of(a.last(), axis) <= key_of(p, axis) {
            assert(m.len() > 0 ==> key_of(m.last(), axis) <= key_of(p, axis));
        } else {
            lemma_merge_insert(a.drop_last(), b, p, axis);
            assert(m == merge_stable(a.drop_last(), b, axis).push(a.last()));
            assert(m.drop_last() =~= merge_stable(a.drop_last(), b, axis));
        }
    } else {
        // the last of `b` stays last in `bp`
        let front = insert_stable(b.drop_last(), p, axis);
        assert(bp.drop_last() =~= front);
        assert(bp.last() == b.last());
        if a.len() == 0 {
        } else if key_of(a.last(), axis) <= key_of(b.last(), axis) {
            lemma_merge_insert(a, b.drop_last(), p, axis);
            assert(m == merge_stable(a, b.drop_last(), axis).push(b.last()));
            assert(m.drop_last() =~= merge_stable(a, b.drop_last(), axis));
        } else {
            lemma_merge_insert(a.drop_last(), b, p, axis);
            assert(m == merge_stable(a.drop_last(), b, axis).push(a.last()));
            assert(m.drop_last() =~= merge_stable(a.drop_last(), b, axis));
        }
    }
}

/// Sorting two halves apart and merging them sorts the whole.
pub proof fn lemma_sort_by_halves(a: Seq<(Vec2, usize)>, b: Seq<(Vec2, usize)>, axis: int)
    ensures
        stable_sort(a + b, axis) == merge_stable(stable_sort(a, axis), stable_sort(b, axis), axis),
    decreases b.len(),
{
    let sa = stable_sort(a, axis);
    if b.len() == 0 {
        assert(a + b =~= a);
    } else {
        let front = b.drop_last();
        assert((a + b).drop_last() =~= a + front);
        assert((a + b).last() == b.last());
        lemma_sort_by_halves(a, front, axis);
        lemma_merge_insert(sa, stable_sort(front, axis), b.last(), axis);
    }
}

/// A copy of `points[begin..end]`.
fn copy_range(points: &Vec<(Vec2, usize)>, begin: usize, end: usize) -> (out: Vec<(Vec2, usize)>)
    requires
        begin <= end <= points.len(),
    ensures
        out@ == points@.subrange(begin as int, end as int),
{
    let mut out: Vec<(Vec2, usize)> = Vec::new();
    let mut i: usize = begin;
    while i < end
        invariant
            begin <= i <= end <= points.len(),
            out@ == points@.subrange(begin as int, i as int),
        decreases end - i,
    {
        out.push(points[i]);
        i += 1;
    }
    out
}

/// Whether `p` does not come after `q` along `axis`.
fn not_after(p: &(Vec2, usize), q: &(Vec2, usize), axis: usize) -> (b: bool)
    ensures
        b == (key_of(*p, axis as int) <= key_of(*q, axis as int)),
{
    if axis % 2 == 0 {
        p.0.x <= q.0.x
    } else {
        p.0.y <= q.0.y
    }
}

/// Sorts `points[begin..end]` in place along `axis` (even: by `x`; odd: by
/// `y`), keeping points with equal coordinates in the order in which they
/// stood. The rest of `points` stays as it is.
pub fn sort_by_axis(points: &mut Vec<(Vec2, usize)>, begin: usize, end: usize, axis: usize)
    requires
        begin <= end <= old(points).len(),
    ensures
        final(points)@.len() == old(points)@.len(),
        final(points)@ == old(points)@.subrange(0, begin as int) + stable_sort(
            old(points)@.subrange(begin as int, end as int),
            axis as int,
        ) + old(points)@.subrange(end as int, old(points)@.len() as int),
    decreases end - begin,
{
    let ghost before = points@;
    let ghost whole = before.subrange(begin as int, end as int);
    if end - begin <= 1 {
        proof {
            lemma_stable_sort_short(whole, axis as int);
            assert(points@ =~= before.subrange(0, begin as int) + whole + before.subrange(
                end as int,
                before.len() as int,
            ));
        }
        return ;
    }
    let mid: usize = begin + (end - begin) / 2;
    proof {
        lemma_stable_sort(whole, axis as int);
    }
    sort_by_axis(points, begin, mid, axis);
    let ghost halfway = points@;
    proof {
        lemma_stable_sort(before.subrange(begin as int, mid as int), axis as int);
        assert(halfway.subrange(mid as int, end as int) =~= before.subrange(
            mid as int,
            end as int,
        ));
        assert(halfway.subrange(end as int, halfway.len() as int) =~= before.subrange(
            end as int,
            before.len() as int,
        ));
        assert(halfway.subrange(0, begin as int) =~= before.subrange(0, begin as int));
    }
    sort_by_axis(points, mid, end, axis);
    let lower = copy_range(points, begin, mid);
    let upper = copy_range(points, mid, end);
    proof {
        let first = before.subrange(begin as int, mid as int);
        let second = before.subrange(mid as int, end as int);
        lemma_stable_sort(first, axis as int);
        lemma_stable_sort(second, axis as int);
        assert(lower@ =~= stable_sort(first, axis as int));
        assert(upper@ =~= stable_sort(second, axis as int));
        assert(whole =~= first + second);
        lemma_sort_by_halves(first, second, axis as int);
        lemma_stable_sort(whole, axis as int);
    }
    let ghost merged = merge_stable(lower@, upper@, axis as int);
    let mut i: usize = lower.len();
    let mut j: usize = upper.len();
    assert(lower@.subrange(0, i as int) =~= lower@);
    assert(upper@.subrange(0, j as int) =~= upper@);
    while i + j > 0
        invariant
            begin <= mid <= end <= points.len(),
            i <= lower.len() == mid - begin,
            j <= upper.len() == end - mid,
            points@.len() == before.len(),
            points@.subrange(0, begin as int) == before.subrange(0, begin as int),
            points@.subrange(end as int, before.len() as int) == before.subrange(
                end as int,
                before.len() as int,
            ),
            merged == merge_stable(
                lower@.subrange(0, i as int),
                upper@.subrange(0, j as int),
                axis as int,
            ) + points@.subrange(begin + i + j, end as int),
        decreases i + j,
    {
        let ghost a = lower@.subrange(0, i as int);
        let ghost b = upper@.subrange(0, j as int);
        let ghost tail = points@.subrange(begin + i + j, end as int);
        let ghost prev = points@;
        let from_upper: bool = j > 0 && (i == 0 || not_after(&lower[i - 1], &upper[j - 1], axis));
        proof {
            lemma_merge_last(a, b, axis as int);
        }
        if from_upper {
            points[begin + i + j - 1] = upper[j - 1];
            j -= 1;
            assert(b.drop_last() =~= upper@.subrange(0, j as int));
        } else {
            points[begin + i + j - 1] = lower[i - 1];
            i -= 1;
            assert(a.drop_last() =~= lower@.subrange(0, i as int));
        }
        proof {
            let k = begin + i + j;
            assert(points@.subrange(k as int, end as int) =~= seq![points@[k as int]] + tail);
            assert(merged =~= merge_stable(
                lower@.subrange(0, i as int),
                upper@.subrange(0, j as int),
                axis as int,
            ) + points@.subrange(k as int, end as int));
            assert(points@.subrange(0, begin as int) =~= prev.subrange(0, begin as int));
            assert(points@.subrange(end as int, before.len() as int) =~= prev.subrange(
                end as int,
                before.len() as int,
            ));
        }
    }
    proof {
        assert(merged =~= points@.subrange(begin as int, end as int));
        assert(points@ =~= points@.subrange(0, begin as int) + points@.subrange(
            begin as int,
            end as int,
        ) + points@.subrange(end as int, before.len() as int));
    }
}

} // verus!
