//! The merging of transitions by the state they lead to: the groups that
//! share one guard in the dispatch program.

use crate::search_table::sorted_ranges;
use vstd::prelude::*;

verus! {

/// The keys of the entries of `items` from `from` on that lead to state `n`,
/// in their order.
pub open spec fn members<K>(items: Seq<(K, Option<usize>)>, n: usize, from: int) -> Seq<K>
    decreases items.len() - from,
{
    if from < 0 || from >= items.len() {
        Seq::empty()
    } else if items[from].1 == Some(n) {
        seq![items[from].0] + members(items, n, from + 1)
    } else {
        members(items, n, from + 1)
    }
}

/// Whether an entry of `items` before `i` leads to state `n`.
pub open spec fn seen_before<K>(items: Seq<(K, Option<usize>)>, n: usize, i: int) -> bool {
    exists|j: int| 0 <= j < i && (#[trigger] items[j]).1 == Some(n)
}

/// The entries of `items` from `from` on, merged by the state they lead to:
/// one group for each state, in the order in which the states first occur in
/// `items`, with the keys of all the entries that lead to it.
pub open spec fn groups<K>(items: Seq<(K, Option<usize>)>, from: int) -> Seq<(usize, Seq<K>)>
    decreases items.len() - from,
{
    if from < 0 || from >= items.len() {
        Seq::empty()
    } else {
        match items[from].1 {
            Some(n) => if seen_before(items, n, from) {
                groups(items, from + 1)
            } else {
                seq![(n, members(items, n, from))] + groups(items, from + 1)
            },
            None => groups(items, from + 1),
        }
    }
}

/// The keys of the entries of `items` from `from` on that lead to no state.
pub open spec fn unled<K>(items: Seq<(K, Option<usize>)>, from: int) -> Seq<K>
    decreases items.len() - from,
{
    if from < 0 || from >= items.len() {
        Seq::empty()
    } else if items[from].1 is None {
        seq![items[from].0] + unled(items, from + 1)
    } else {
        unled(items, from + 1)
    }
}

/// Whether an entry of `items` before `i` leads to state `n`.
pub fn is_seen_before<K: Copy>(items: &Vec<(K, Option<usize>)>, n: usize, i: usize) -> (seen: bool)
    requires
        i <= items@.len(),
    ensures
        seen == seen_before(items@, n, i as int),
{
    let mut j: usize = 0;
    while j < i
        invariant
            j <= i <= items@.len(),
            forall|k: int| 0 <= k < j ==> (#[trigger] items@[k]).1 != Some(n),
        decreases i - j,
    {
        match items[j].1 {
            Some(m) => {
                if m == n {
                    return true;
                }
            },
            None => {},
        }
        j += 1;
    }
    false
}

/// The keys of the entries of `items` from `from` on that lead to state `n`.
pub fn collect_members<K: Copy>(items: &Vec<(K, Option<usize>)>, n: usize, from: usize) -> (keys: Vec<K>)
    requires
        from <= items@.len(),
    ensures
        keys@ == members(items@, n, from as int),
{
    let mut keys: Vec<K> = Vec::new();
    let mut j: usize = from;
    while j < items.len()
        invariant
            from <= j <= items@.len(),
            members(items@, n, from as int) == keys@ + members(items@, n, j as int),
        decreases items@.len() - j,
    {
        let hit = match items[j].1 {
            Some(m) => m == n,
            None => false,
        };
        if hit {
            assert(keys@.push(items@[j as int].0) + members(items@, n, j + 1) =~= keys@ + (
            seq![items@[j as int].0] + members(items@, n, j + 1)));
            keys.push(items[j].0);
        }
        j += 1;
    }
    assert(keys@ + Seq::<K>::empty() =~= keys@);
    keys
}

/// The keys of the entries of `items` that lead to no state.
pub fn collect_unled<K: Copy>(items: &Vec<(K, Option<usize>)>) -> (keys: Vec<K>)
    ensures
        keys@ == unled(items@, 0),
{
    let mut keys: Vec<K> = Vec::new();
    let mut j: usize = 0;
    while j < items.len()
        invariant
            j <= items@.len(),
            unled(items@, 0) == keys@ + unled(items@, j as int),
        decreases items@.len() - j,
    {
        if items[j].1.is_none() {
            assert(keys@.push(items@[j as int].0) + unled(items@, j + 1) =~= keys@ + (
            seq![items@[j as int].0] + unled(items@, j + 1)));
            keys.push(items[j].0);
        }
        j += 1;
    }
    assert(keys@ + Seq::<K>::empty() =~= keys@);
    keys
}

/// Whether `p` holds of a key of `keys`.
pub open spec fn any_key<K>(keys: Seq<K>, p: spec_fn(K) -> bool) -> bool {
    exists|k: int| 0 <= k < keys.len() && p(#[trigger] keys[k])
}

/// Whether `p` holds of the key of an entry of `items` from `from` on that
/// leads to `target`.
pub open spec fn any_entry<K>(
    items: Seq<(K, Option<usize>)>,
    target: Option<usize>,
    from: int,
    p: spec_fn(K) -> bool,
) -> bool {
    exists|j: int| from <= j < items.len() && (#[trigger] items[j]).1 == target && p(items[j].0)
}

/// The keys of a group are the keys of the entries that lead to its state.
pub proof fn lemma_members_any<K>(
    items: Seq<(K, Option<usize>)>,
    n: usize,
    from: int,
    p: spec_fn(K) -> bool,
)
    requires
        0 <= from,
    ensures
        any_key(members(items, n, from), p) <==> any_entry(items, Some(n), from, p),
    decreases items.len() - from,
{
    let keys = members(items, n, from);
    if from >= items.len() {
    } else {
        lemma_members_any(items, n, from + 1, p);
        let rest = members(items, n, from + 1);
        if items[from].1 == Some(n) {
            assert(keys =~= seq![items[from].0] + rest);
            if any_key(keys, p) {
                let k = choose|k: int| 0 <= k < keys.len() && p(#[trigger] keys[k]);
                if k == 0 {
                    assert(items[from].1 == Some(n) && p(items[from].0));
                } else {
                    assert(keys[k] == rest[k - 1]);
                    assert(any_key(rest, p));
                    let j = choose|j: int|
                        from + 1 <= j < items.len() && (#[trigger] items[j]).1 == Some(n) && p(
                            items[j].0,
                        );
                    assert(from <= j < items.len() && items[j].1 == Some(n) && p(items[j].0));
                }
            }
            if any_entry(items, Some(n), from, p) {
                let j = choose|j: int|
                    from <= j < items.len() && (#[trigger] items[j]).1 == Some(n) && p(items[j].0);
                if j == from {
                    assert(p(keys[0]));
                } else {
                    assert(from + 1 <= j < items.len() && items[j].1 == Some(n) && p(items[j].0));
                    assert(any_key(rest, p));
                    let k = choose|k: int| 0 <= k < rest.len() && p(#[trigger] rest[k]);
                    assert(keys[k + 1] == rest[k]);
                    assert(p(keys[k + 1]));
                }
            }
        } else {
            assert(keys == rest);
            if any_entry(items, Some(n), from, p) {
                let j = choose|j: int|
                    from <= j < items.len() && (#[trigger] items[j]).1 == Some(n) && p(items[j].0);
                assert(from + 1 <= j < items.len() && items[j].1 == Some(n) && p(items[j].0));
            }
            if any_key(rest, p) {
                let j = choose|j: int|
                    from + 1 <= j < items.len() && (#[trigger] items[j]).1 == Some(n) && p(
                        items[j].0,
                    );
                assert(from <= j < items.len() && items[j].1 == Some(n) && p(items[j].0));
            }
        }
    }
}

/// The keys that lead to no state are the keys of the entries that lead to
/// none.
pub proof fn lemma_unled_any<K>(items: Seq<(K, Option<usize>)>, from: int, p: spec_fn(K) -> bool)
    requires
        0 <= from,
    ensures
        any_key(unled(items, from), p) <==> any_entry(items, None, from, p),
    decreases items.len() - from,
{
    let keys = unled(items, from);
    if from >= items.len() {
    } else {
        lemma_unled_any(items, from + 1, p);
        let rest = unled(items, from + 1);
        if items[from].1 is None {
            assert(keys =~= seq![items[from].0] + rest);
            if any_key(keys, p) {
                let k = choose|k: int| 0 <= k < keys.len() && p(#[trigger] keys[k]);
                if k == 0 {
                    assert(items[from].1 == None::<usize> && p(items[from].0));
                } else {
                    assert(keys[k] == rest[k - 1]);
                    assert(any_key(rest, p));
                    let j = choose|j: int|
                        from + 1 <= j < items.len() && (#[trigger] items[j]).1 == None::<usize>
                            && p(items[j].0);
                    assert(from <= j < items.len() && items[j].1 == None::<usize> && p(
                        items[j].0,
                    ));
                }
            }
            if any_entry(items, None, from, p) {
                let j = choose|j: int|
                    from <= j < items.len() && (#[trigger] items[j]).1 == None::<usize> && p(
                        items[j].0,
                    );
                if j == from {
                    assert(p(keys[0]));
                } else {
                    assert(from + 1 <= j < items.len() && items[j].1 == None::<usize> && p(
                        items[j].0,
                    ));
                    assert(any_key(rest, p));
                    let k = choose|k: int| 0 <= k < rest.len() && p(#[trigger] rest[k]);
                    assert(keys[k + 1] == rest[k]);
                    assert(p(keys[k + 1]));
                }
            }
        } else {
            assert(keys == rest);
            if any_entry(items, None, from, p) {
                let j = choose|j: int|
                    from <= j < items.len() && (#[trigger] items[j]).1 == None::<usize> && p(
                        items[j].0,
                    );
                assert(from + 1 <= j < items.len() && items[j].1 == None::<usize> && p(
                    items[j].0,
                ));
            }
            if any_key(rest, p) {
                let j = choose|j: int|
                    from + 1 <= j < items.len() && (#[trigger] items[j]).1 == None::<usize> && p(
                        items[j].0,
                    );
                assert(from <= j < items.len() && items[j].1 == None::<usize> && p(items[j].0));
            }
        }
    }
}

/// Where `p` holds of the key of one entry only, and that entry leads to
/// state `n`, every group with a key of which `p` holds is the group of `n`.
pub proof fn lemma_groups_all<K>(
    items: Seq<(K, Option<usize>)>,
    from: int,
    p: spec_fn(K) -> bool,
    i: int,
    n: usize,
)
    requires
        0 <= from,
        0 <= i < items.len(),
        items[i].1 == Some(n),
        forall|j: int| 0 <= j < items.len() && p((#[trigger] items[j]).0) ==> j == i,
    ensures
        forall|a: int|
            0 <= a < groups(items, from).len() && any_key((#[trigger] groups(items, from)[a]).1, p)
                ==> groups(items, from)[a].0 == n,
    decreases items.len() - from,
{
    let gs = groups(items, from);
    if from < items.len() {
        lemma_groups_all(items, from + 1, p, i, n);
        let rest = groups(items, from + 1);
        match items[from].1 {
            Some(m) => {
                if !seen_before(items, m, from) {
                    assert(gs =~= seq![(m, members(items, m, from))] + rest);
                    lemma_members_any(items, m, from, p);
                    assert forall|a: int|
                        0 <= a < gs.len() && any_key((#[trigger] gs[a]).1, p) implies gs[a].0
                        == n by {
                        if a == 0 {
                            let j = choose|j: int|
                                from <= j < items.len() && (#[trigger] items[j]).1 == Some(m) && p(
                                    items[j].0,
                                );
                            assert(j == i);
                        } else {
                            assert(gs[a] == rest[a - 1]);
                        }
                    }
                }
            },
            None => {},
        }
    }
}

/// Where `p` holds of the keys of such entries only as lead to no state, no
/// group has a key of which `p` holds.
pub proof fn lemma_groups_none<K>(items: Seq<(K, Option<usize>)>, from: int, p: spec_fn(K) -> bool)
    requires
        0 <= from,
        forall|j: int| 0 <= j < items.len() && p((#[trigger] items[j]).0) ==> items[j].1 is None,
    ensures
        forall|a: int|
            0 <= a < groups(items, from).len() ==> !any_key(
                (#[trigger] groups(items, from)[a]).1,
                p,
            ),
    decreases items.len() - from,
{
    let gs = groups(items, from);
    if from < items.len() {
        lemma_groups_none(items, from + 1, p);
        let rest = groups(items, from + 1);
        match items[from].1 {
            Some(m) => {
                if !seen_before(items, m, from) {
                    assert(gs =~= seq![(m, members(items, m, from))] + rest);
                    lemma_members_any(items, m, from, p);
                    assert forall|a: int| 0 <= a < gs.len() implies !any_key(
                        (#[trigger] gs[a]).1,
                        p,
                    ) by {
                        if a == 0 {
                            if any_key(gs[0].1, p) {
                                let j = choose|j: int|
                                    from <= j < items.len() && (#[trigger] items[j]).1 == Some(m)
                                        && p(items[j].0);
                                assert(false);
                            }
                        } else {
                            assert(gs[a] == rest[a - 1]);
                        }
                    }
                }
            },
            None => {},
        }
    }
}

/// Where `p` holds of the key of an entry at or after `from` that leads to
/// state `n`, and no entry before `from` leads to `n`, the group of `n` is
/// among the groups from `from` on and has a key of which `p` holds.
pub proof fn lemma_groups_some<K>(
    items: Seq<(K, Option<usize>)>,
    from: int,
    p: spec_fn(K) -> bool,
    i: int,
    n: usize,
)
    requires
        0 <= from <= i < items.len(),
        items[i].1 == Some(n),
        p(items[i].0),
        !seen_before(items, n, from),
    ensures
        exists|a: int|
            0 <= a < groups(items, from).len() && any_key((#[trigger] groups(items, from)[a]).1, p),
    decreases items.len() - from,
{
    let gs = groups(items, from);
    let rest = groups(items, from + 1);
    if items[from].1 == Some(n) {
        assert(gs =~= seq![(n, members(items, n, from))] + rest);
        lemma_members_any(items, n, from, p);
        assert(any_entry(items, Some(n), from, p));
        assert(any_key(gs[0].1, p));
    } else {
        assert(from < i);
        assert(!seen_before(items, n, from + 1)) by {
            if seen_before(items, n, from + 1) {
                let j = choose|j: int| 0 <= j < from + 1 && (#[trigger] items[j]).1 == Some(n);
                assert(j < from);
            }
        }
        lemma_groups_some(items, from + 1, p, i, n);
        let a = choose|a: int| 0 <= a < rest.len() && any_key((#[trigger] rest[a]).1, p);
        match items[from].1 {
            Some(m) => {
                if !seen_before(items, m, from) {
                    assert(gs =~= seq![(m, members(items, m, from))] + rest);
                    assert(gs[a + 1] == rest[a]);
                    assert(any_key(gs[a + 1].1, p));
                } else {
                    assert(any_key(gs[a].1, p));
                }
            },
            None => {
                assert(any_key(gs[a].1, p));
            },
        }
    }
}

/// Whether the keys of `items` are ranges that are non-empty, in order and
/// pairwise disjoint.
pub open spec fn sorted_items(items: Seq<((char, char), Option<usize>)>) -> bool {
    &&& forall|i: int| 0 <= i < items.len() ==> (#[trigger] items[i]).0.0 <= items[i].0.1
    &&& forall|i: int, j: int|
        0 <= i < j < items.len() ==> (#[trigger] items[i]).0.1 < (#[trigger] items[j]).0.0
}

/// The predicate of being a range that does not start after `bound`.
pub open spec fn not_after(bound: char) -> spec_fn((char, char)) -> bool {
    |k: (char, char)| k.0 <= bound
}

/// The ranges of a group of sorted ranges are sorted.
pub proof fn lemma_members_sorted(items: Seq<((char, char), Option<usize>)>, n: usize, from: int)
    requires
        0 <= from,
        sorted_items(items),
    ensures
        sorted_ranges(members(items, n, from)),
    decreases items.len() - from,
{
    if from < items.len() {
        lemma_members_sorted(items, n, from + 1);
        let rest = members(items, n, from + 1);
        if items[from].1 == Some(n) {
            let head = items[from].0;
            let keys = members(items, n, from);
            assert(keys =~= seq![head] + rest);
            lemma_members_any(items, n, from + 1, not_after(head.1));
            assert forall|k: int| 0 <= k < rest.len() implies head.1 < (#[trigger] rest[k]).0 by {
                if rest[k].0 <= head.1 {
                    assert(not_after(head.1)(rest[k]));
                    assert(any_key(rest, not_after(head.1)));
                    let j = choose|j: int|
                        from + 1 <= j < items.len() && (#[trigger] items[j]).1 == Some(n)
                            && not_after(head.1)(items[j].0);
                    assert(items[from].0.1 < items[j].0.0);
                }
            }
            assert forall|i: int, j: int| 0 <= i < j < keys.len() implies (#[trigger] keys[i]).1 < (
            #[trigger] keys[j]).0 by {
                if i == 0 {
                    assert(keys[j] == rest[j - 1]);
                } else {
                    assert(keys[i] == rest[i - 1]);
                    assert(keys[j] == rest[j - 1]);
                }
            }
            assert forall|i: int| 0 <= i < keys.len() implies (#[trigger] keys[i]).0
                <= keys[i].1 by {
                if i > 0 {
                    assert(keys[i] == rest[i - 1]);
                }
            }
        }
    }
}

/// The ranges, among sorted ranges, that lead to no state are sorted.
pub proof fn lemma_unled_sorted(items: Seq<((char, char), Option<usize>)>, from: int)
    requires
        0 <= from,
        sorted_items(items),
    ensures
        sorted_ranges(unled(items, from)),
    decreases items.len() - from,
{
    if from < items.len() {
        lemma_unled_sorted(items, from + 1);
        let rest = unled(items, from + 1);
        if items[from].1 is None {
            let head = items[from].0;
            let keys = unled(items, from);
            assert(keys =~= seq![head] + rest);
            lemma_unled_any(items, from + 1, not_after(head.1));
            assert forall|k: int| 0 <= k < rest.len() implies head.1 < (#[trigger] rest[k]).0 by {
                if rest[k].0 <= head.1 {
                    assert(not_after(head.1)(rest[k]));
                    assert(any_key(rest, not_after(head.1)));
                    let j = choose|j: int|
                        from + 1 <= j < items.len() && (#[trigger] items[j]).1 == None::<usize>
                            && not_after(head.1)(items[j].0);
                    assert(items[from].0.1 < items[j].0.0);
                }
            }
            assert forall|i: int, j: int| 0 <= i < j < keys.len() implies (#[trigger] keys[i]).1 < (
            #[trigger] keys[j]).0 by {
                if i == 0 {
                    assert(keys[j] == rest[j - 1]);
                } else {
                    assert(keys[i] == rest[i - 1]);
                    assert(keys[j] == rest[j - 1]);
                }
            }
            assert forall|i: int| 0 <= i < keys.len() implies (#[trigger] keys[i]).0
                <= keys[i].1 by {
                if i > 0 {
                    assert(keys[i] == rest[i - 1]);
                }
            }
        }
    }
}

} // verus!
