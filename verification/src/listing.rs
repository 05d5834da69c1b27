//! Lists in order: the one order in which a set of rows is listed by its
//! keys, the sorting that finds it, and the joining of lines.

use vstd::prelude::*;
use vstd::string::StringExecFns;

verus! {

/// What rows are ordered by: a pair of numbers, the first counting first.
pub type Key = (u64, u64);

/// Whether the first key comes before the second.
pub open spec fn key_less(a: Key, b: Key) -> bool {
    a.0 < b.0 || (a.0 == b.0 && a.1 < b.1)
}

/// Whether the keys of the rows rise from each row to the next.
pub open spec fn sorted_by<T>(rows: Seq<T>, key: spec_fn(T) -> Key) -> bool {
    forall|i: int, j: int| 0 <= i < j < rows.len() ==> key_less(key(rows[i]), key(rows[j]))
}

/// Whether `rows` lists exactly the items, by rising keys.
pub open spec fn is_listing<T>(rows: Seq<T>, items: Set<T>, key: spec_fn(T) -> Key) -> bool {
    sorted_by(rows, key) && rows.to_set() == items
}

/// The list of the items by rising keys. There is one where the items are
/// finitely many and no two of them have the same key.
pub open spec fn listing<T>(items: Set<T>, key: spec_fn(T) -> Key) -> Seq<T> {
    choose|rows: Seq<T>| is_listing(rows, items, key)
}

/// Two lists of the same items by rising keys are the same list.
pub proof fn lemma_listing_unique<T>(a: Seq<T>, b: Seq<T>, items: Set<T>, key: spec_fn(T) -> Key)
    requires
        is_listing(a, items, key),
        is_listing(b, items, key),
    ensures
        a == b,
    decreases a.len(),
{
    if a.len() == 0 {
        if b.len() > 0 {
            assert(b.to_set().contains(b[0]));
            assert(a.to_set().contains(b[0]));
        }
        assert(a =~= b);
    } else {
        assert(a.to_set().contains(a[0]));
        assert(b.to_set().contains(a[0]));
        let j = choose|j: int| 0 <= j < b.len() && b[j] == a[0];
        assert(b.to_set().contains(b[0]));
        assert(a.to_set().contains(b[0]));
        let i = choose|i: int| 0 <= i < a.len() && a[i] == b[0];
        if i > 0 {
            assert(key_less(key(a[0]), key(a[i])));
            if j > 0 {
                assert(key_less(key(b[0]), key(b[j])));
            }
        }
        assert(a[0] == b[0]);
        let rest_a = a.drop_first();
        let rest_b = b.drop_first();
        let rest = items.remove(a[0]);
        assert forall|x: T| rest_a.to_set().contains(x) <==> rest.contains(x) by {
            if rest_a.to_set().contains(x) {
                let k = choose|k: int| 0 <= k < rest_a.len() && rest_a[k] == x;
                assert(a[k + 1] == x);
                assert(a.to_set().contains(x));
                assert(key_less(key(a[0]), key(a[k + 1])));
            }
            if rest.contains(x) {
                assert(a.to_set().contains(x));
                let k = choose|k: int| 0 <= k < a.len() && a[k] == x;
                assert(rest_a[k - 1] == x);
            }
        }
        assert forall|x: T| rest_b.to_set().contains(x) <==> rest.contains(x) by {
            if rest_b.to_set().contains(x) {
                let k = choose|k: int| 0 <= k < rest_b.len() && rest_b[k] == x;
                assert(b[k + 1] == x);
                assert(b.to_set().contains(x));
                assert(key_less(key(b[0]), key(b[k + 1])));
            }
            if rest.contains(x) {
                assert(b.to_set().contains(x));
                let k = choose|k: int| 0 <= k < b.len() && b[k] == x;
                assert(rest_b[k - 1] == x);
            }
        }
        assert(rest_a.to_set() =~= rest);
        assert(rest_b.to_set() =~= rest);
        assert forall|x: int, y: int| 0 <= x < y < rest_a.len() implies key_less(
            key(rest_a[x]),
            key(rest_a[y]),
        ) by {
            assert(key_less(key(a[x + 1]), key(a[y + 1])));
        }
        assert forall|x: int, y: int| 0 <= x < y < rest_b.len() implies key_less(
            key(rest_b[x]),
            key(rest_b[y]),
        ) by {
            assert(key_less(key(b[x + 1]), key(b[y + 1])));
        }
        lemma_listing_unique(rest_a, rest_b, rest, key);
        assert(a =~= seq![a[0]] + rest_a);
        assert(b =~= seq![b[0]] + rest_b);
    }
}

/// A list of the items by rising keys is the list of them.
pub proof fn lemma_listing<T>(rows: Seq<T>, items: Set<T>, key: spec_fn(T) -> Key)
    requires
        is_listing(rows, items, key),
    ensures
        listing(items, key) == rows,
{
    lemma_listing_unique(listing(items, key), rows, items, key);
}

/// Whether no two of the items have the same key.
pub open spec fn distinct_keys<T>(items: Set<T>, key: spec_fn(T) -> Key) -> bool {
    forall|a: T, b: T| items.contains(a) && items.contains(b) && key(a) == key(b) ==> a == b
}

/// Among finitely many items with distinct keys, one has the greatest key.
pub proof fn lemma_greatest<T>(items: Set<T>, key: spec_fn(T) -> Key) -> (greatest: T)
    requires
        items.finite(),
        items.len() > 0,
        distinct_keys(items, key),
    ensures
        items.contains(greatest),
        forall|other: T|
            items.contains(other) && other != greatest ==> key_less(key(other), key(greatest)),
    decreases items.len(),
{
    let x = items.choose();
    let rest = items.remove(x);
    if rest.len() == 0 {
        rest.lemma_len0_is_empty();
        assert forall|other: T| items.contains(other) && other != x implies key_less(
            key(other),
            key(x),
        ) by {
            assert(rest.contains(other));
        }
        x
    } else {
        let g = lemma_greatest(rest, key);
        assert(items.contains(g) && g != x);
        if key_less(key(g), key(x)) {
            assert forall|other: T| items.contains(other) && other != x implies key_less(
                key(other),
                key(x),
            ) by {
                assert(rest.contains(other));
            }
            x
        } else {
            assert forall|other: T| items.contains(other) && other != g implies key_less(
                key(other),
                key(g),
            ) by {
                if other != x {
                    assert(rest.contains(other));
                }
            }
            g
        }
    }
}

/// Finitely many items with distinct keys have a list by rising keys, which
/// is the list of them: it holds each of them once, and no other.
pub proof fn lemma_listing_exists<T>(items: Set<T>, key: spec_fn(T) -> Key)
    requires
        items.finite(),
        distinct_keys(items, key),
    ensures
        is_listing(listing(items, key), items, key),
    decreases items.len(),
{
    if items.len() == 0 {
        items.lemma_len0_is_empty();
        let rows = Seq::<T>::empty();
        assert(rows.to_set() =~= items);
        lemma_listing(rows, items, key);
    } else {
        let g = lemma_greatest(items, key);
        let rest = items.remove(g);
        lemma_listing_exists(rest, key);
        let head = listing(rest, key);
        let rows = head.push(g);
        assert forall|i: int, j: int| 0 <= i < j < rows.len() implies key_less(
            key(rows[i]),
            key(rows[j]),
        ) by {
            if j == head.len() {
                assert(head.to_set().contains(head[i]));
                assert(rest.contains(rows[i]));
            } else {
                assert(key_less(key(head[i]), key(head[j])));
            }
        }
        head.lemma_push_to_set_commute(g);
        assert(rows.to_set() =~= items);
        lemma_listing(rows, items, key);
    }
}

/// The rows in the order that `order` gives to their indices.
pub open spec fn in_order<T>(rows: Seq<T>, order: Seq<usize>) -> Seq<T> {
    Seq::new(order.len(), |a: int| rows[order[a] as int])
}

/// Whether `order` names each index of `keys` once, by rising keys.
pub open spec fn is_order(order: Seq<usize>, keys: Seq<Key>) -> bool {
    &&& order.len() == keys.len()
    &&& forall|a: int| 0 <= a < order.len() ==> (#[trigger] order[a]) < keys.len()
    &&& forall|k: usize| k < keys.len() ==> order.contains(k)
    &&& forall|a: int, b: int|
        0 <= a < b < order.len() ==> key_less(
            keys[(#[trigger] order[a]) as int],
            keys[(#[trigger] order[b]) as int],
        )
}

/// Rows in the order of their keys are the list of the rows.
pub proof fn lemma_order_listing<T>(
    rows: Seq<T>,
    keys: Seq<Key>,
    order: Seq<usize>,
    key: spec_fn(T) -> Key,
)
    requires
        rows.len() == keys.len(),
        rows.len() <= usize::MAX,
        forall|i: int| 0 <= i < rows.len() ==> keys[i] == key(#[trigger] rows[i]),
        is_order(order, keys),
    ensures
        listing(rows.to_set(), key) == in_order(rows, order),
{
    let sorted = in_order(rows, order);
    assert forall|i: int, j: int| 0 <= i < j < sorted.len() implies key_less(
        key(sorted[i]),
        key(sorted[j]),
    ) by {
        assert(key_less(keys[order[i] as int], keys[order[j] as int]));
    }
    assert forall|x: T| sorted.to_set().contains(x) <==> rows.to_set().contains(x) by {
        if sorted.to_set().contains(x) {
            let a = choose|a: int| 0 <= a < sorted.len() && sorted[a] == x;
            assert(rows[order[a] as int] == x);
        }
        if rows.to_set().contains(x) {
            let k = choose|k: int| 0 <= k < rows.len() && rows[k] == x;
            let index = k as usize;
            assert(order.contains(index));
            let a = choose|a: int| 0 <= a < order.len() && order[a] == index;
            assert(sorted[a] == x);
        }
    }
    assert(sorted.to_set() =~= rows.to_set());
    lemma_listing(sorted, rows.to_set(), key);
}

/// Adding an item that a list without duplicates does not hold leaves it
/// without duplicates.
pub proof fn lemma_push_no_duplicates<A>(s: Seq<A>, x: A)
    requires
        s.no_duplicates(),
        !s.contains(x),
    ensures
        s.push(x).no_duplicates(),
{
    let t = s.push(x);
    assert forall|i: int, j: int| 0 <= i < t.len() && 0 <= j < t.len() && i != j implies t[i]
        != t[j] by {
        if i < s.len() {
            assert(s.contains(s[i]));
        }
        if j < s.len() {
            assert(s.contains(s[j]));
        }
    }
}

/// Taking one item out of a list without duplicates, by putting the last in
/// its place, leaves a list without duplicates of the other items.
pub proof fn lemma_swap_remove<A>(s: Seq<A>, i: int)
    requires
        s.no_duplicates(),
        0 <= i < s.len(),
    ensures
        s.update(i, s.last()).drop_last().no_duplicates(),
        s.update(i, s.last()).drop_last().to_set() == s.to_set().remove(s[i]),
{
    let t = s.update(i, s.last()).drop_last();
    let last = s.len() - 1;
    assert forall|x: A| t.to_set().contains(x) <==> s.to_set().remove(s[i]).contains(x) by {
        if t.to_set().contains(x) {
            let k = choose|k: int| 0 <= k < t.len() && t[k] == x;
            if k == i {
                assert(s[last] == x);
            } else {
                assert(s[k] == x);
            }
        }
        if s.to_set().remove(s[i]).contains(x) {
            let m = choose|m: int| 0 <= m < s.len() && s[m] == x;
            if m == last {
                assert(t[i] == x);
            } else {
                assert(t[m] == x);
            }
        }
    }
    assert(t.to_set() =~= s.to_set().remove(s[i]));
}

/// Whether the first key comes before the second.
pub fn key_before(a: Key, b: Key) -> (r: bool)
    ensures
        r == key_less(a, b),
{
    a.0 < b.0 || (a.0 == b.0 && a.1 < b.1)
}

/// The indices of the keys, in the order of the keys.
pub fn sort_keys(keys: &Vec<Key>) -> (order: Vec<usize>)
    requires
        keys@.no_duplicates(),
    ensures
        is_order(order@, keys@),
{
    let n = keys.len();
    let mut remaining: Vec<usize> = Vec::new();
    let mut i: usize = 0;
    while i < n
        invariant
            i <= n,
            remaining@.len() == i,
            forall|k: int| 0 <= k < i ==> remaining@[k] == k,
        decreases n - i,
    {
        remaining.push(i);
        i += 1;
    }
    assert forall|k: usize| k < n implies remaining@.contains(k) by {
        assert(remaining@[k as int] == k);
    }
    assert(remaining@.no_duplicates());
    let mut order: Vec<usize> = Vec::new();
    while remaining.len() > 0
        invariant
            n == keys@.len(),
            keys@.no_duplicates(),
            order@.len() + remaining@.len() == n,
            remaining@.no_duplicates(),
            forall|r: int| 0 <= r < remaining@.len() ==> (#[trigger] remaining@[r]) < n,
            forall|a: int| 0 <= a < order@.len() ==> (#[trigger] order@[a]) < n,
            forall|k: usize| k < n ==> order@.contains(k) || remaining@.contains(k),
            forall|a: int, r: int|
                0 <= a < order@.len() && 0 <= r < remaining@.len() ==> key_less(
                    keys@[(#[trigger] order@[a]) as int],
                    keys@[(#[trigger] remaining@[r]) as int],
                ),
            forall|a: int, b: int|
                0 <= a < b < order@.len() ==> key_less(
                    keys@[(#[trigger] order@[a]) as int],
                    keys@[(#[trigger] order@[b]) as int],
                ),
        decreases remaining@.len(),
    {
        let mut best: usize = 0;
        let mut j: usize = 1;
        while j < remaining.len()
            invariant
                1 <= j <= remaining@.len(),
                best < j,
                n == keys@.len(),
                keys@.no_duplicates(),
                remaining@.no_duplicates(),
                forall|r: int| 0 <= r < remaining@.len() ==> (#[trigger] remaining@[r]) < n,
                forall|y: int|
                    0 <= y < j && y != best ==> key_less(
                        keys@[remaining@[best as int] as int],
                        keys@[(#[trigger] remaining@[y]) as int],
                    ),
            decreases remaining@.len() - j,
        {
            let candidate = keys[remaining[j]];
            let least = keys[remaining[best]];
            proof {
                assert(remaining@[j as int] != remaining@[best as int]);
                assert(keys@[remaining@[j as int] as int] != keys@[remaining@[best as int] as int]);
            }
            if key_before(candidate, least) {
                best = j;
            }
            j += 1;
        }
        let ghost before = remaining@;
        let ghost done = order@;
        let index = remaining.swap_remove(best);
        proof {
            lemma_swap_remove(before, best as int);
            assert forall|r: int| 0 <= r < remaining@.len() implies before.contains(
                #[trigger] remaining@[r],
            ) && remaining@[r] != index by {
                assert(remaining@.to_set().contains(remaining@[r]));
                assert(before.to_set().contains(remaining@[r]));
            }
        }
        order.push(index);
        proof {
            assert forall|r: int| 0 <= r < remaining@.len() implies (#[trigger] remaining@[r])
                < n && key_less(keys@[index as int], keys@[remaining@[r] as int]) by {
                let y = choose|y: int| 0 <= y < before.len() && before[y] == remaining@[r];
                assert(before[y] < n);
            }
            assert forall|k: usize| k < n implies order@.contains(k) || remaining@.contains(
                k,
            ) by {
                if done.contains(k) {
                    let a = choose|a: int| 0 <= a < done.len() && done[a] == k;
                    assert(order@[a] == k);
                } else if k == index {
                    assert(order@[done.len() as int] == index);
                } else {
                    assert(before.to_set().contains(k));
                    assert(remaining@.to_set().contains(k));
                }
            }
            assert forall|a: int, r: int|
                0 <= a < order@.len() && 0 <= r < remaining@.len() implies key_less(
                keys@[(#[trigger] order@[a]) as int],
                keys@[(#[trigger] remaining@[r]) as int],
            ) by {
                let y = choose|y: int| 0 <= y < before.len() && before[y] == remaining@[r];
                if a < done.len() {
                    assert(key_less(keys@[done[a] as int], keys@[before[y] as int]));
                }
            }
            assert forall|a: int, b: int| 0 <= a < b < order@.len() implies key_less(
                keys@[(#[trigger] order@[a]) as int],
                keys@[(#[trigger] order@[b]) as int],
            ) by {
                if b == done.len() {
                    assert(key_less(keys@[done[a] as int], keys@[before[best as int] as int]));
                } else {
                    assert(key_less(keys@[done[a] as int], keys@[done[b] as int]));
                }
            }
        }
    }
    order
}

/// The items with the separator between each two of them.
pub open spec fn join(items: Seq<Seq<char>>, separator: Seq<char>) -> Seq<char>
    decreases items.len(),
{
    if items.len() == 0 {
        Seq::<char>::empty()
    } else if items.len() == 1 {
        items[0]
    } else {
        join(items.drop_last(), separator) + separator + items.last()
    }
}

/// The lines with a line feed between each two of them.
pub open spec fn join_lines(lines: Seq<Seq<char>>) -> Seq<char> {
    join(lines, "\n"@)
}

/// What joining one more item gives.
pub proof fn lemma_join_push(items: Seq<Seq<char>>, separator: Seq<char>, item: Seq<char>)
    ensures
        join(items.push(item), separator) == if items.len() == 0 {
            item
        } else {
            join(items, separator) + separator + item
        },
{
    assert(items.push(item).drop_last() =~= items);
}

/// The texts of the strings.
pub open spec fn texts_of(lines: Seq<String>) -> Seq<Seq<char>> {
    lines.map_values(|line: String| line@)
}

/// The lines, in the order that `order` gives to their indices, with a line
/// feed between each two of them.
pub fn join_in_order(lines: &Vec<String>, order: &Vec<usize>) -> (r: String)
    requires
        forall|a: int| 0 <= a < order@.len() ==> (#[trigger] order@[a]) < lines@.len(),
    ensures
        r@ == join_lines(in_order(texts_of(lines@), order@)),
{
    let ghost sorted = in_order(texts_of(lines@), order@);
    let mut out = String::new();
    let mut a: usize = 0;
    while a < order.len()
        invariant
            a <= order@.len(),
            sorted == in_order(texts_of(lines@), order@),
            forall|a: int| 0 <= a < order@.len() ==> (#[trigger] order@[a]) < lines@.len(),
            out@ == join_lines(sorted.take(a as int)),
        decreases order@.len() - a,
    {
        if a > 0 {
            out.append("\n");
        }
        out.append(lines[order[a]].as_str());
        proof {
            lemma_join_push(sorted.take(a as int), "\n"@, sorted[a as int]);
            assert(sorted.take(a + 1) =~= sorted.take(a as int).push(sorted[a as int]));
            if a == 0 {
                assert(sorted.take(0) =~= Seq::<Seq<char>>::empty());
                assert(out@ =~= sorted[0]);
            }
        }
        a += 1;
    }
    assert(sorted.take(order@.len() as int) =~= sorted);
    out
}

} // verus!
