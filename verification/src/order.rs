//! The order of strings, and lists that are sorted by it.
use crate::text;
use crate::text::{same_text, to_chars};
use vstd::prelude::*;

verus! {

/// Whether `a` comes before `b`: at the first place where they differ the smaller
/// code point decides, and a proper prefix comes first.
pub open spec fn before(a: Seq<char>, b: Seq<char>) -> bool
    decreases a.len(),
{
    if b.len() == 0 {
        false
    } else if a.len() == 0 {
        true
    } else if a[0] != b[0] {
        a[0] < b[0]
    } else {
        before(a.skip(1), b.skip(1))
    }
}

/// Nothing comes before itself.
pub proof fn before_is_irreflexive(a: Seq<char>)
    ensures
        !before(a, a),
    decreases a.len(),
{
    if a.len() > 0 {
        before_is_irreflexive(a.skip(1));
    }
}

/// What comes before something that comes before a third comes before the third.
pub proof fn before_is_transitive(a: Seq<char>, b: Seq<char>, c: Seq<char>)
    requires
        before(a, b),
        before(b, c),
    ensures
        before(a, c),
    decreases a.len(),
{
    if a.len() > 0 && a[0] == b[0] && b[0] == c[0] {
        before_is_transitive(a.skip(1), b.skip(1), c.skip(1));
    }
}

/// Of two different strings one comes before the other.
pub proof fn before_is_total(a: Seq<char>, b: Seq<char>)
    ensures
        a == b || before(a, b) || before(b, a),
    decreases a.len(),
{
    if a.len() > 0 && b.len() > 0 && a[0] == b[0] {
        before_is_total(a.skip(1), b.skip(1));
        if a.skip(1) == b.skip(1) {
            assert(a == seq![a[0]] + a.skip(1));
            assert(b == seq![b[0]] + b.skip(1));
        }
    } else if a.len() == 0 && b.len() == 0 {
        assert(a == b);
    }
}

/// Of two strings at most one comes before the other.
pub proof fn before_is_asymmetric(a: Seq<char>, b: Seq<char>)
    requires
        before(a, b),
    ensures
        !before(b, a),
{
    if before(b, a) {
        before_is_transitive(a, b, a);
        before_is_irreflexive(a);
    }
}

/// Whether `a` comes before `b`.
pub fn is_before(a: &str, b: &str) -> (r: bool)
    ensures
        r == before(a@, b@),
{
    let x: Vec<char> = to_chars(a);
    let y: Vec<char> = to_chars(b);
    let mut i: usize = 0;
    assert(x@.skip(0) == a@);
    assert(y@.skip(0) == b@);
    while i < x.len() && i < y.len() && x[i] == y[i]
        invariant
            i <= x@.len(),
            i <= y@.len(),
            before(x@.skip(i as int), y@.skip(i as int)) == before(a@, b@),
        decreases x@.len() - i,
    {
        assert(x@.skip(i as int).skip(1) == x@.skip(i + 1));
        assert(y@.skip(i as int).skip(1) == y@.skip(i + 1));
        i = i + 1;
    }
    if i == y.len() {
        false
    } else if i == x.len() {
        true
    } else {
        x[i] < y[i]
    }
}

// ---------------------------------------------------------------------------
// Sorted lists without repetition
// ---------------------------------------------------------------------------

/// A sorted list with `x` put in its place, unless it is there.
pub open spec fn with_entry(list: Seq<Seq<char>>, x: Seq<char>) -> Seq<Seq<char>>
    decreases list.len(),
{
    if list.len() == 0 {
        seq![x]
    } else if x == list.last() {
        list
    } else if before(x, list.last()) {
        with_entry(list.drop_last(), x).push(list.last())
    } else {
        list.push(x)
    }
}

/// The entries of `list`, each once, in order.
pub open spec fn sorted_entries(list: Seq<Seq<char>>) -> Seq<Seq<char>>
    decreases list.len(),
{
    if list.len() == 0 {
        Seq::empty()
    } else {
        with_entry(sorted_entries(list.drop_last()), list.last())
    }
}

/// Whether each entry comes before all that follow it.
pub open spec fn ascending(list: Seq<Seq<char>>) -> bool {
    forall|i: int, j: int| 0 <= i < j < list.len() ==> before(#[trigger] list[i], #[trigger] list[j])
}

proof fn lemma_with_entry(list: Seq<Seq<char>>, x: Seq<char>)
    requires
        ascending(list),
    ensures
        ascending(with_entry(list, x)),
        forall|y: Seq<char>| #[trigger]
            with_entry(list, x).contains(y) <==> (y == x || list.contains(y)),
    decreases list.len(),
{
    let r = with_entry(list, x);
    if list.len() == 0 {
        assert(r[0] == x);
    } else if x == list.last() {
        assert(list[list.len() - 1] == x);
    } else if before(x, list.last()) {
        let init = list.drop_last();
        lemma_with_entry(init, x);
        let inner = with_entry(init, x);
        assert forall|y: Seq<char>| #[trigger] r.contains(y) <==> (y == x || list.contains(y)) by {
            if r.contains(y) {
                let i = choose|i: int| 0 <= i < r.len() && r[i] == y;
                if i < inner.len() {
                    assert(inner.contains(inner[i]));
                    if y != x {
                        let k = choose|k: int| 0 <= k < init.len() && init[k] == y;
                        assert(list[k] == y);
                    }
                } else {
                    assert(list[list.len() - 1] == y);
                }
            }
            if list.contains(y) || y == x {
                if y == list.last() {
                    assert(r[r.len() - 1] == y);
                } else {
                    if y != x {
                        let k = choose|k: int| 0 <= k < list.len() && list[k] == y;
                        assert(init[k] == y);
                    }
                    assert(inner.contains(y));
                    let k = choose|k: int| 0 <= k < inner.len() && inner[k] == y;
                    assert(r[k] == y);
                }
            }
        }
        assert forall|i: int, j: int| 0 <= i < j < r.len() implies before(
            #[trigger] r[i],
            #[trigger] r[j],
        ) by {
            if j < inner.len() {
                assert(before(inner[i], inner[j]));
            } else {
                assert(inner.contains(inner[i]));
                if inner[i] != x {
                    let k = choose|k: int| 0 <= k < init.len() && init[k] == inner[i];
                    assert(before(list[k], list[list.len() - 1]));
                }
            }
        }
    } else {
        before_is_total(x, list.last());
        assert forall|i: int, j: int| 0 <= i < j < r.len() implies before(
            #[trigger] r[i],
            #[trigger] r[j],
        ) by {
            if j == list.len() && i < list.len() - 1 {
                assert(before(list[i], list[list.len() - 1]));
                before_is_transitive(list[i], list.last(), x);
            }
        }
        assert forall|y: Seq<char>| #[trigger] r.contains(y) <==> (y == x || list.contains(y)) by {
            if list.contains(y) {
                let k = choose|k: int| 0 <= k < list.len() && list[k] == y;
                assert(r[k] == y);
            }
            assert(r[list.len() as int] == x);
        }
    }
}

/// Sorting a list without repetition gives an ascending list with the same entries.
pub proof fn sorted_entries_ascend(list: Seq<Seq<char>>)
    ensures
        ascending(sorted_entries(list)),
        forall|y: Seq<char>| #[trigger] sorted_entries(list).contains(y) <==> list.contains(y),
    decreases list.len(),
{
    if list.len() > 0 {
        sorted_entries_ascend(list.drop_last());
        lemma_with_entry(sorted_entries(list.drop_last()), list.last());
        assert forall|y: Seq<char>| #[trigger]
            sorted_entries(list).contains(y) <==> list.contains(y) by {
            if list.contains(y) && y != list.last() {
                let k = choose|k: int| 0 <= k < list.len() && list[k] == y;
                assert(list.drop_last()[k] == y);
            }
            if list.drop_last().contains(y) {
                let k = choose|k: int| 0 <= k < list.drop_last().len() && list.drop_last()[k] == y;
                assert(list[k] == y);
            }
            assert(list[list.len() - 1] == list.last());
        }
    }
}

/// Puts `x` in its place in a sorted list, unless it is there.
fn add_entry(list: &mut Vec<String>, x: String)
    ensures
        text::views(final(list)@) == with_entry(text::views(old(list)@), x@),
{
    let ghost all = text::views(list@);
    let mut i: usize = list.len();
    let ghost mut tail: Seq<Seq<char>> = Seq::empty();
    assert(all.take(i as int) == all);
    assert(with_entry(all, x@) + tail == with_entry(all, x@));
    while i > 0 && is_before(x.as_str(), list[i - 1].as_str())
        invariant
            i <= list@.len(),
            *list == *old(list),
            all == text::views(list@),
            tail == all.skip(i as int),
            with_entry(all.take(i as int), x@) + tail == with_entry(all, x@),
        decreases i,
    {
        proof {
            let head = all.take(i as int);
            before_is_irreflexive(x@);
            assert(head.last() == list@[i - 1]@);
            assert(head.drop_last() == all.take(i - 1));
            let shorter = with_entry(all.take(i - 1), x@);
            assert(with_entry(head, x@) == shorter.push(head.last()));
            assert(all.skip(i - 1) == seq![head.last()] + tail);
            assert(shorter + all.skip(i - 1) == shorter.push(head.last()) + tail);
            tail = all.skip(i - 1);
        }
        i = i - 1;
    }
    if i > 0 && same_text(x.as_str(), list[i - 1].as_str()) {
        proof {
            assert(all.take(i as int).last() == x@);
            assert(all.take(i as int) + tail == all);
        }
    } else {
        list.insert(i, x);
        proof {
            let head = all.take(i as int);
            if i > 0 {
                assert(head.last() == old(list)@[i - 1]@);
            } else {
                assert(seq![x@] == head.push(x@));
            }
            assert(with_entry(head, x@) == head.push(x@));
            assert(text::views(list@) == head.push(x@) + tail);
        }
    }
}

/// The strings of `list`, each once, in order.
pub fn sort_and_dedup(list: &Vec<String>) -> (r: Vec<String>)
    ensures
        text::views(r@) == sorted_entries(text::views(list@)),
{
    let mut out: Vec<String> = Vec::new();
    let mut i: usize = 0;
    let ghost all = text::views(list@);
    assert(text::views(out@) == sorted_entries(all.take(0)));
    while i < list.len()
        invariant
            i <= list@.len(),
            all == text::views(list@),
            text::views(out@) == sorted_entries(all.take(i as int)),
        decreases list@.len() - i,
    {
        add_entry(&mut out, list[i].clone());
        i = i + 1;
        assert(all.take(i as int).drop_last() == all.take(i - 1));
    }
    assert(all.take(i as int) == all);
    out
}

/// The first place where two strings differ decides between them.
pub proof fn the_first_difference_decides(
    common: Seq<char>,
    a: char,
    x: Seq<char>,
    b: char,
    y: Seq<char>,
)
    requires
        a != b,
    ensures
        before(common.push(a) + x, common.push(b) + y) <==> a < b,
    decreases common.len(),
{
    let s = common.push(a) + x;
    let t = common.push(b) + y;
    if common.len() > 0 {
        let rest = common.skip(1);
        assert(s.skip(1) == rest.push(a) + x);
        assert(t.skip(1) == rest.push(b) + y);
        the_first_difference_decides(rest, a, x, b, y);
    } else {
        assert(s[0] == a && t[0] == b);
    }
}

/// A string comes before those that go on from it.
pub proof fn beginnings_come_first(s: Seq<char>, more: Seq<char>)
    requires
        more.len() > 0,
    ensures
        before(s, s + more),
        !before(s + more, s),
    decreases s.len(),
{
    if s.len() > 0 {
        assert((s + more).skip(1) == s.skip(1) + more);
        beginnings_come_first(s.skip(1), more);
    }
}

/// There is only one ascending list with given entries.
pub proof fn ascending_lists_are_unique(a: Seq<Seq<char>>, b: Seq<Seq<char>>)
    requires
        ascending(a),
        ascending(b),
        forall|y: Seq<char>| #[trigger] a.contains(y) <==> b.contains(y),
    ensures
        a == b,
    decreases a.len(),
{
    if a.len() == 0 {
        if b.len() > 0 {
            assert(b.contains(b[0]));
            assert(a.contains(b[0]));
        }
        assert(a =~= b);
    } else {
        assert(a.contains(a[a.len() - 1]));
        assert(b.contains(a.last()));
        assert(b.contains(b[b.len() - 1]));
        assert(a.contains(b.last()));
        let x = a.last();
        let y = b.last();
        if x != y {
            let k = choose|k: int| 0 <= k < b.len() && b[k] == x;
            let m = choose|m: int| 0 <= m < a.len() && a[m] == y;
            assert(before(b[k], b[b.len() - 1]));
            assert(before(a[m], a[a.len() - 1]));
            before_is_asymmetric(x, y);
        }
        let init = a.drop_last();
        let other = b.drop_last();
        assert forall|i: int, j: int| 0 <= i < j < init.len() implies before(
            #[trigger] init[i],
            #[trigger] init[j],
        ) by {
            assert(before(a[i], a[j]));
        }
        assert forall|i: int, j: int| 0 <= i < j < other.len() implies before(
            #[trigger] other[i],
            #[trigger] other[j],
        ) by {
            assert(before(b[i], b[j]));
        }
        assert forall|z: Seq<char>| #[trigger] init.contains(z) <==> other.contains(z) by {
            lemma_without_last(a, z);
            lemma_without_last(b, z);
        }
        ascending_lists_are_unique(init, other);
        assert(a == init.push(x));
        assert(b == other.push(x));
    }
}

proof fn lemma_without_last(a: Seq<Seq<char>>, z: Seq<char>)
    requires
        ascending(a),
        a.len() > 0,
    ensures
        a.drop_last().contains(z) <==> a.contains(z) && z != a.last(),
{
    let init = a.drop_last();
    if init.contains(z) {
        let k = choose|k: int| 0 <= k < init.len() && init[k] == z;
        assert(a[k] == z);
        assert(before(a[k], a[a.len() - 1]));
        before_is_irreflexive(z);
    }
    if a.contains(z) && z != a.last() {
        let k = choose|k: int| 0 <= k < a.len() && a[k] == z;
        assert(init[k] == z);
    }
}

} // verus!
