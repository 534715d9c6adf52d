//! The order of texts, and sorting.
use crate::text::chars;
use vstd::prelude::*;
use vstd::string::*;

verus! {

// ── Texts ────────────────────────────────────────────────────────────

/// Lexicographic order by code point, in which a text follows its beginnings.
pub open spec fn text_le(a: Seq<char>, b: Seq<char>) -> bool
    decreases a.len(),
{
    if a.len() == 0 {
        true
    } else if b.len() == 0 {
        false
    } else if a[0] != b[0] {
        a[0] < b[0]
    } else {
        text_le(a.skip(1), b.skip(1))
    }
}

/// Of two texts, one comes first.
pub proof fn lemma_text_total(a: Seq<char>, b: Seq<char>)
    ensures
        text_le(a, b) || text_le(b, a),
    decreases a.len(),
{
    if a.len() > 0 && b.len() > 0 && a[0] == b[0] {
        lemma_text_total(a.skip(1), b.skip(1));
    }
}

/// The order of texts is transitive.
pub proof fn lemma_text_transitive(a: Seq<char>, b: Seq<char>, c: Seq<char>)
    requires
        text_le(a, b),
        text_le(b, c),
    ensures
        text_le(a, c),
    decreases a.len(),
{
    if a.len() > 0 && b.len() > 0 && c.len() > 0 && a[0] == b[0] && b[0] == c[0] {
        lemma_text_transitive(a.skip(1), b.skip(1), c.skip(1));
    }
}

/// Only equal texts come before each other.
pub proof fn lemma_text_antisymmetric(a: Seq<char>, b: Seq<char>)
    requires
        text_le(a, b),
        text_le(b, a),
    ensures
        a == b,
    decreases a.len(),
{
    if a.len() == 0 {
        assert(a =~= b);
    } else {
        lemma_text_antisymmetric(a.skip(1), b.skip(1));
        assert(a =~= seq![a[0]] + a.skip(1));
        assert(b =~= seq![b[0]] + b.skip(1));
    }
}

/// Texts compare as what follows a common beginning.
pub proof fn lemma_text_common(p: Seq<char>, a: Seq<char>, b: Seq<char>)
    ensures
        text_le(p + a, p + b) == text_le(a, b),
    decreases p.len(),
{
    if p.len() == 0 {
        assert(p + a =~= a);
        assert(p + b =~= b);
    } else {
        lemma_text_common(p.skip(1), a, b);
        assert((p + a).skip(1) =~= p.skip(1) + a);
        assert((p + b).skip(1) =~= p.skip(1) + b);
    }
}

/// Whether one text comes before another, or is the same.
pub fn text_at_most(a: &str, b: &str) -> (r: bool)
    ensures
        r == text_le(a@, b@),
{
    let x = chars(a);
    let y = chars(b);
    let mut i: usize = 0;
    proof {
        assert(x@.skip(0) =~= x@);
        assert(y@.skip(0) =~= y@);
    }
    while i < x.len()
        invariant
            x@ == a@,
            y@ == b@,
            i <= x.len(),
            i <= y.len(),
            text_le(x@, y@) == text_le(x@.skip(i as int), y@.skip(i as int)),
        decreases x.len() - i,
    {
        if i >= y.len() {
            return false;
        }
        if x[i] != y[i] {
            return x[i] < y[i];
        }
        proof {
            assert(x@.skip(i as int).skip(1) =~= x@.skip(i + 1));
            assert(y@.skip(i as int).skip(1) =~= y@.skip(i + 1));
        }
        i = i + 1;
    }
    true
}

// ── Sorting ──────────────────────────────────────────────────────────

/// Values with a total order, in which different values may rank equally.
pub trait Sortable: Sized {
    /// Whether `self` ranks no later than `other`.
    spec fn le(&self, other: &Self) -> bool;

    /// Of two values, one ranks no later.
    proof fn lemma_total(a: &Self, b: &Self)
        ensures
            a.le(b) || b.le(a),
    ;

    /// Ranking is transitive.
    proof fn lemma_transitive(a: &Self, b: &Self, c: &Self)
        requires
            a.le(b),
            b.le(c),
        ensures
            a.le(c),
    ;

    /// Whether `self` ranks no later than `other`, computed.
    fn at_most(&self, other: &Self) -> (r: bool)
        ensures
            r == self.le(other),
    ;
}

/// Whether the item at `x` comes before the item at `y`: it ranks earlier, or
/// equally and stands earlier.
pub open spec fn precedes<T: Sortable>(items: Seq<T>, x: usize, y: usize) -> bool {
    &&& items[x as int].le(&items[y as int])
    &&& items[y as int].le(&items[x as int]) ==> x < y
}

/// Whether indices are listed in the order of their items.
pub open spec fn ordered<T: Sortable>(items: Seq<T>, order: Seq<usize>) -> bool {
    forall|i: int, j: int|
        0 <= i < j < order.len() ==> #[trigger] precedes(items, order[i], order[j])
}

/// Whether `order` lists every index of `items` once, in the order of the items.
pub open spec fn is_sorted_order<T: Sortable>(items: Seq<T>, order: Seq<usize>) -> bool {
    &&& order.len() == items.len()
    &&& forall|i: int| 0 <= i < order.len() ==> (#[trigger] order[i]) < items.len()
    &&& forall|x: usize| x < items.len() ==> #[trigger] order.contains(x)
    &&& ordered(items, order)
}

proof fn lemma_precedes_transitive<T: Sortable>(items: Seq<T>, x: usize, y: usize, z: usize)
    requires
        precedes(items, x, y),
        precedes(items, y, z),
    ensures
        precedes(items, x, z),
{
    let a = &items[x as int];
    let b = &items[y as int];
    let c = &items[z as int];
    T::lemma_transitive(a, b, c);
    if c.le(a) {
        T::lemma_transitive(b, c, a);
        T::lemma_transitive(c, a, b);
    }
}

/// Merges two ordered lists of indices, those of the first all smaller.
fn merge<T: Sortable>(items: &Vec<T>, a: &Vec<usize>, b: &Vec<usize>) -> (r: Vec<usize>)
    requires
        ordered(items@, a@),
        ordered(items@, b@),
        forall|i: int| 0 <= i < a.len() ==> (#[trigger] a@[i]) < items.len(),
        forall|i: int| 0 <= i < b.len() ==> (#[trigger] b@[i]) < items.len(),
        forall|i: int, j: int| 0 <= i < a.len() && 0 <= j < b.len() ==> a@[i] < b@[j],
        a.len() + b.len() <= usize::MAX,
    ensures
        ordered(items@, r@),
        r.len() == a.len() + b.len(),
        forall|i: int| 0 <= i < r.len() ==> a@.contains(#[trigger] r@[i]) || b@.contains(r@[i]),
        forall|x: usize| a@.contains(x) || b@.contains(x) ==> #[trigger] r@.contains(x),
{
    let mut r: Vec<usize> = Vec::new();
    let mut i: usize = 0;
    let mut j: usize = 0;
    while i < a.len() || j < b.len()
        invariant
            i <= a.len(),
            j <= b.len(),
            r.len() == i + j,
            a.len() + b.len() <= usize::MAX,
            ordered(items@, a@),
            ordered(items@, b@),
            ordered(items@, r@),
            forall|k: int| 0 <= k < a.len() ==> (#[trigger] a@[k]) < items.len(),
            forall|k: int| 0 <= k < b.len() ==> (#[trigger] b@[k]) < items.len(),
            forall|k: int, l: int| 0 <= k < a.len() && 0 <= l < b.len() ==> a@[k] < b@[l],
            forall|k: int|
                0 <= k < r.len() ==> a@.contains(#[trigger] r@[k]) || b@.contains(r@[k]),
            forall|k: int| 0 <= k < i ==> r@.contains(#[trigger] a@[k]),
            forall|k: int| 0 <= k < j ==> r@.contains(#[trigger] b@[k]),
            forall|k: int, l: int|
                0 <= k < r.len() && i <= l < a.len() ==> #[trigger] precedes(items@, r@[k], a@[l]),
            forall|k: int, l: int|
                0 <= k < r.len() && j <= l < b.len() ==> #[trigger] precedes(items@, r@[k], b@[l]),
        decreases a.len() + b.len() - i - j,
    {
        let from_a = if j >= b.len() {
            true
        } else if i >= a.len() {
            false
        } else {
            items[a[i]].at_most(&items[b[j]])
        };
        let ghost before = r@;
        if from_a {
            let x: usize = a[i];
            r.push(x);
            proof {
                assert forall|l: int| j <= l < b.len() implies precedes(items@, x, b@[l]) by {
                    assert(precedes(items@, x, b@[j as int]));
                    if l > j {
                        lemma_precedes_transitive(items@, x, b@[j as int], b@[l]);
                    }
                }
                lemma_pushed(items@, before, x);
                assert(r@ == before.push(x));
                assert(r@[before.len() as int] == a@[i as int]);
                assert forall|k: int| 0 <= k < i implies r@.contains(#[trigger] a@[k]) by {
                    lemma_push_keeps(before, x, a@[k]);
                }
                assert forall|k: int| 0 <= k < j implies r@.contains(#[trigger] b@[k]) by {
                    lemma_push_keeps(before, x, b@[k]);
                }
            }
            i = i + 1;
        } else {
            let x: usize = b[j];
            r.push(x);
            proof {
                assert forall|l: int| i <= l < a.len() implies precedes(items@, x, a@[l]) by {
                    T::lemma_total(&items@[a@[i as int] as int], &items@[x as int]);
                    assert(precedes(items@, x, a@[i as int]));
                    if l > i {
                        lemma_precedes_transitive(items@, x, a@[i as int], a@[l]);
                    }
                }
                lemma_pushed(items@, before, x);
                assert(r@ == before.push(x));
                assert(r@[before.len() as int] == b@[j as int]);
                assert forall|k: int| 0 <= k < i implies r@.contains(#[trigger] a@[k]) by {
                    lemma_push_keeps(before, x, a@[k]);
                }
                assert forall|k: int| 0 <= k < j implies r@.contains(#[trigger] b@[k]) by {
                    lemma_push_keeps(before, x, b@[k]);
                }
            }
            j = j + 1;
        }
    }
    proof {
        assert forall|x: usize| a@.contains(x) || b@.contains(x) implies #[trigger] r@.contains(
            x,
        ) by {
            if a@.contains(x) {
                let k = choose|k: int| 0 <= k < a.len() && a@[k] == x;
                assert(r@.contains(a@[k]));
            } else {
                let k = choose|k: int| 0 <= k < b.len() && b@[k] == x;
                assert(r@.contains(b@[k]));
            }
        }
    }
    r
}

/// An index that all listed ones precede can be listed next.
proof fn lemma_pushed<T: Sortable>(items: Seq<T>, order: Seq<usize>, x: usize)
    requires
        ordered(items, order),
        forall|k: int| 0 <= k < order.len() ==> #[trigger] precedes(items, order[k], x),
    ensures
        ordered(items, order.push(x)),
{
    let r = order.push(x);
    assert forall|i: int, j: int| 0 <= i < j < r.len() implies #[trigger] precedes(
        items,
        r[i],
        r[j],
    ) by {
        if j < order.len() {
            assert(precedes(items, order[i], order[j]));
        } else {
            assert(precedes(items, order[i], x));
        }
    }
}

/// A longer list holds what it held.
proof fn lemma_push_keeps(s: Seq<usize>, x: usize, y: usize)
    requires
        s.contains(y),
    ensures
        s.push(x).contains(y),
{
    let k = choose|k: int| 0 <= k < s.len() && s[k] == y;
    assert(s.push(x)[k] == y);
}

/// Sorts the indices of a range.
fn sort_range<T: Sortable>(items: &Vec<T>, lo: usize, hi: usize) -> (r: Vec<usize>)
    requires
        lo <= hi <= items.len(),
    ensures
        r.len() == hi - lo,
        forall|i: int| 0 <= i < r.len() ==> lo <= (#[trigger] r@[i]) < hi,
        forall|x: usize| lo <= x < hi ==> #[trigger] r@.contains(x),
        ordered(items@, r@),
    decreases hi - lo,
{
    let mut r: Vec<usize> = Vec::new();
    if hi - lo == 0 {
        return r;
    }
    if hi - lo == 1 {
        r.push(lo);
        assert(r@[0] == lo);
        return r;
    }
    let mid: usize = lo + (hi - lo) / 2;
    let a = sort_range(items, lo, mid);
    let b = sort_range(items, mid, hi);
    let r = merge(items, &a, &b);
    proof {
        assert forall|i: int| 0 <= i < r.len() implies lo <= (#[trigger] r@[i]) < hi by {
            if a@.contains(r@[i]) {
                let k = choose|k: int| 0 <= k < a.len() && a@[k] == r@[i];
                assert(lo <= a@[k] < mid);
            } else {
                let k = choose|k: int| 0 <= k < b.len() && b@[k] == r@[i];
                assert(mid <= b@[k] < hi);
            }
        }
        assert forall|x: usize| lo <= x < hi implies #[trigger] r@.contains(x) by {
            if x < mid {
                assert(a@.contains(x));
            } else {
                assert(b@.contains(x));
            }
        }
    }
    r
}

/// Lists the indices of items in their order; equally ranked items keep theirs.
pub fn sort_order<T: Sortable>(items: &Vec<T>) -> (r: Vec<usize>)
    ensures
        is_sorted_order(items@, r@),
{
    sort_range(items, 0, items.len())
}

/// Items have one sorted order.
pub proof fn law_sorted_order_is_unique<T: Sortable>(items: Seq<T>, a: Seq<usize>, b: Seq<usize>)
    requires
        is_sorted_order(items, a),
        is_sorted_order(items, b),
    ensures
        a == b,
{
    assert forall|n: int| 0 <= n <= a.len() implies a.take(n) == b.take(n) by {
        lemma_same_start(items, a, b, n);
    }
    assert(a.take(a.len() as int) =~= a);
    assert(b.take(a.len() as int) =~= b);
}

/// Two sorted orders begin alike.
proof fn lemma_same_start<T: Sortable>(items: Seq<T>, a: Seq<usize>, b: Seq<usize>, n: int)
    requires
        is_sorted_order(items, a),
        is_sorted_order(items, b),
        0 <= n <= a.len(),
    ensures
        a.take(n) == b.take(n),
    decreases n,
{
    if n > 0 {
        lemma_same_start(items, a, b, n - 1);
        let x = a[n - 1];
        let y = b[n - 1];
        assert(b.contains(x) && a.contains(y));
        let p = choose|p: int| 0 <= p < b.len() && b[p] == x;
        let q = choose|q: int| 0 <= q < a.len() && a[q] == y;
        if p < n - 1 {
            assert(a.take(n - 1)[p] == b.take(n - 1)[p]);
            assert(precedes(items, a[p], a[n - 1]));
        }
        if q < n - 1 {
            assert(a.take(n - 1)[q] == b.take(n - 1)[q]);
            assert(precedes(items, b[q], b[n - 1]));
        }
        if x != y {
            assert(precedes(items, b[n - 1], b[p]));
            assert(precedes(items, a[n - 1], a[q]));
            lemma_precedes_transitive(items, x, y, x);
        }
        assert(a.take(n) =~= a.take(n - 1).push(x));
        assert(b.take(n) =~= b.take(n - 1).push(y));
    } else {
        assert(a.take(n) =~= b.take(n));
    }
}

// ── Laws ─────────────────────────────────────────────────────────────

/// The first place where two texts differ decides which comes first; where there
/// is none, the shorter does.
pub proof fn law_first_difference_decides(
    common: Seq<char>,
    x: char,
    y: char,
    a: Seq<char>,
    b: Seq<char>,
)
    requires
        x < y,
    ensures
        text_le(common + seq![x] + a, common + seq![y] + b),
        !text_le(common + seq![y] + b, common + seq![x] + a),
        text_le(common, common + seq![x] + a),
        !text_le(common + seq![x] + a, common),
        text_le(common, common),
{
    let p = seq![x] + a;
    let q = seq![y] + b;
    lemma_text_common(common, p, q);
    lemma_text_common(common, q, p);
    lemma_text_common(common, Seq::empty(), p);
    lemma_text_common(common, p, Seq::empty());
    lemma_text_total(common, common);
    assert(common + Seq::<char>::empty() =~= common);
    assert(common + p =~= common + seq![x] + a);
    assert(common + q =~= common + seq![y] + b);
}

/// A sorted order takes every item once; of two items the one that stands first
/// is at most the other, and of two that are at most each other the one that came
/// first stays first.
pub proof fn law_sorted_order_is_sorted<T: Sortable>(items: Seq<T>, order: Seq<usize>)
    requires
        is_sorted_order(items, order),
    ensures
        order.len() == items.len(),
        forall|x: usize| x < items.len() ==> #[trigger] order.contains(x),
        forall|i: int, j: int|
            0 <= i < j < order.len() ==> (#[trigger] order[i]) != (#[trigger] order[j]),
        forall|i: int, j: int|
            0 <= i < j < order.len() ==> items[(#[trigger] order[i]) as int].le(
                &items[(#[trigger] order[j]) as int],
            ),
        forall|i: int, j: int|
            0 <= i < j < order.len() && items[(#[trigger] order[j]) as int].le(
                &items[(#[trigger] order[i]) as int],
            ) ==> order[i] < order[j],
{
    assert forall|i: int, j: int| 0 <= i < j < order.len() implies items[(
    #[trigger] order[i]) as int].le(&items[(#[trigger] order[j]) as int]) && order[i] != order[j]
        && (items[order[j] as int].le(&items[order[i] as int]) ==> order[i] < order[j]) by {
        assert(precedes(items, order[i], order[j]));
    }
}

} // verus!
