//! Ordered string-keyed entry lists.
//!
//! A table is a list of `(key, value)` entries in document order in which no
//! key occurs twice.  The specifications here speak of the list as a sequence
//! of pairs whose first component is the key's text.

use vstd::prelude::*;

verus! {

/// Whether some entry is named `key`.
pub open spec fn has_key<T>(entries: Seq<(Seq<char>, T)>, key: Seq<char>) -> bool {
    exists|i: int| 0 <= i < entries.len() && (#[trigger] entries[i]).0 == key
}

/// An index of an entry named `key`; the only one where the keys are unique.
pub open spec fn key_index<T>(entries: Seq<(Seq<char>, T)>, key: Seq<char>) -> int {
    choose|i: int| 0 <= i < entries.len() && (#[trigger] entries[i]).0 == key
}

/// The value stored under `key`.
pub open spec fn value_of<T>(entries: Seq<(Seq<char>, T)>, key: Seq<char>) -> T
    recommends
        has_key(entries, key),
{
    entries[key_index(entries, key)].1
}

/// No key occurs twice.
pub open spec fn unique_keys<T>(entries: Seq<(Seq<char>, T)>) -> bool {
    forall|i: int, j: int|
        0 <= i < j < entries.len() ==> (#[trigger] entries[i]).0 != (#[trigger] entries[j]).0
}

/// The keys of the entries, in order.
pub open spec fn keys_of<T>(entries: Seq<(Seq<char>, T)>) -> Seq<Seq<char>> {
    Seq::new(entries.len(), |i: int| entries[i].0)
}

/// The entries of `ys` whose key does not occur in `xs`, in order.
pub open spec fn only_in<U, T>(ys: Seq<(Seq<char>, U)>, xs: Seq<(Seq<char>, T)>) -> Seq<
    (Seq<char>, U),
> {
    ys.filter(|e: (Seq<char>, U)| !has_key(xs, e.0))
}

/// With unique keys, the index of a key is the index at which it stands.
pub proof fn lemma_key_index<T>(entries: Seq<(Seq<char>, T)>, i: int)
    requires
        unique_keys(entries),
        0 <= i < entries.len(),
    ensures
        has_key(entries, entries[i].0),
        key_index(entries, entries[i].0) == i,
        value_of(entries, entries[i].0) == entries[i].1,
{
    let k = key_index(entries, entries[i].0);
    assert(0 <= k < entries.len() && entries[k].0 == entries[i].0);
    if k < i {
        assert(entries[k].0 != entries[i].0);
    } else if i < k {
        assert(entries[i].0 != entries[k].0);
    }
}

/// The overlay of `ys` on `xs`: the entries of `xs` in their order, each one
/// whose key also occurs in `ys` with its value combined with the value there,
/// followed by a fresh entry for each entry of `ys` whose key does not occur
/// in `xs`, in the order of `ys`.
pub open spec fn overlay<T, U>(
    xs: Seq<(Seq<char>, T)>,
    ys: Seq<(Seq<char>, U)>,
    combine: spec_fn(T, U) -> T,
    fresh: spec_fn(U) -> T,
) -> Seq<(Seq<char>, T)> {
    Seq::new(
        xs.len(),
        |i: int|
            if has_key(ys, xs[i].0) {
                (xs[i].0, combine(xs[i].1, value_of(ys, xs[i].0)))
            } else {
                xs[i]
            },
    ) + Seq::new(
        only_in(ys, xs).len(),
        |i: int| (only_in(ys, xs)[i].0, fresh(only_in(ys, xs)[i].1)),
    )
}

/// The overlay of the first `n` entries of `ys` on `xs`.
pub open spec fn overlay_prefix<T, U>(
    xs: Seq<(Seq<char>, T)>,
    ys: Seq<(Seq<char>, U)>,
    n: int,
    combine: spec_fn(T, U) -> T,
    fresh: spec_fn(U) -> T,
) -> Seq<(Seq<char>, T)> {
    overlay(xs, ys.take(n), combine, fresh)
}

/// Whether `entry` is the fresh entry made for some entry of `ys`.
pub open spec fn fresh_from<T, U>(
    entry: (Seq<char>, T),
    ys: Seq<(Seq<char>, U)>,
    fresh: spec_fn(U) -> T,
) -> bool {
    exists|j: int| 0 <= j < ys.len() && entry == ((#[trigger] ys[j]).0, fresh(ys[j].1))
}

/// What `only_in` keeps: exactly the entries of `ys` whose key is not in `xs`,
/// with unique keys where `ys` has unique keys.
pub proof fn lemma_only_in<U, T>(ys: Seq<(Seq<char>, U)>, xs: Seq<(Seq<char>, T)>)
    ensures
        only_in(ys, xs).len() <= ys.len(),
        forall|i: int|
            0 <= i < only_in(ys, xs).len() ==> !has_key(xs, (#[trigger] only_in(ys, xs)[i]).0)
                && ys.contains(only_in(ys, xs)[i]),
        forall|j: int|
            0 <= j < ys.len() && !has_key(xs, (#[trigger] ys[j]).0) ==> only_in(ys, xs).contains(
                ys[j],
            ),
        unique_keys(ys) ==> unique_keys(only_in(ys, xs)),
    decreases ys.len(),
{
    reveal(Seq::filter);
    let pred = |e: (Seq<char>, U)| !has_key(xs, e.0);
    if ys.len() > 0 {
        let front = ys.drop_last();
        let last = ys.last();
        lemma_only_in(front, xs);
        let kept = only_in(front, xs);
        let all = only_in(ys, xs);
        assert(all == if pred(last) {
            kept.push(last)
        } else {
            kept
        });
        assert forall|i: int| 0 <= i < all.len() implies !has_key(xs, (#[trigger] all[i]).0)
            && ys.contains(all[i]) by {
            if i < kept.len() {
                assert(all[i] == kept[i]);
                assert(front.contains(kept[i]));
                let j = choose|j: int| 0 <= j < front.len() && front[j] == kept[i];
                assert(ys[j] == all[i]);
            } else {
                assert(all[i] == last);
                assert(ys[ys.len() - 1] == last);
            }
        }
        assert forall|j: int| 0 <= j < ys.len() && !has_key(xs, (#[trigger] ys[j]).0) implies all.contains(
            ys[j],
        ) by {
            if j < front.len() {
                assert(front[j] == ys[j]);
                assert(kept.contains(front[j]));
                let i = choose|i: int| 0 <= i < kept.len() && kept[i] == front[j];
                assert(all[i] == ys[j]);
            } else {
                assert(ys[j] == last);
                assert(all[all.len() - 1] == last);
            }
        }
        if unique_keys(ys) {
            assert(unique_keys(front));
            assert forall|i: int, j: int| 0 <= i < j < all.len() implies (#[trigger] all[i]).0 != (
            #[trigger] all[j]).0 by {
                if j < kept.len() {
                    assert(kept[i].0 != kept[j].0);
                } else {
                    assert(all[j] == last);
                    assert(all[i] == kept[i]);
                    assert(front.contains(kept[i]));
                    let t = choose|t: int| 0 <= t < front.len() && front[t] == kept[i];
                    assert(ys[t].0 != ys[ys.len() - 1].0);
                }
            }
        }
    }
}

/// The overlay of no entries is `xs`.
pub proof fn lemma_overlay_none<T, U>(
    xs: Seq<(Seq<char>, T)>,
    ys: Seq<(Seq<char>, U)>,
    combine: spec_fn(T, U) -> T,
    fresh: spec_fn(U) -> T,
)
    ensures
        overlay_prefix(xs, ys, 0, combine, fresh) == xs,
{
    let empty = ys.take(0);
    assert(empty.len() == 0);
    assert(only_in(empty, xs).len() == 0) by {
        empty.lemma_filter_len(|e: (Seq<char>, U)| !has_key(xs, e.0));
    }
    assert(overlay_prefix(xs, ys, 0, combine, fresh) =~= xs);
}

/// The overlay of all the entries of `ys` is the overlay of `ys`.
pub proof fn lemma_overlay_all<T, U>(
    xs: Seq<(Seq<char>, T)>,
    ys: Seq<(Seq<char>, U)>,
    combine: spec_fn(T, U) -> T,
    fresh: spec_fn(U) -> T,
)
    ensures
        overlay_prefix(xs, ys, ys.len() as int, combine, fresh) == overlay(xs, ys, combine, fresh),
{
    assert(ys.take(ys.len() as int) =~= ys);
}

/// Taking one more entry of `ys` whose key stands at `at` in `xs` replaces the
/// value there by the combined one.
pub proof fn lemma_overlay_hit<T, U>(
    xs: Seq<(Seq<char>, T)>,
    ys: Seq<(Seq<char>, U)>,
    n: int,
    at: int,
    combine: spec_fn(T, U) -> T,
    fresh: spec_fn(U) -> T,
)
    requires
        unique_keys(xs),
        unique_keys(ys),
        0 <= n < ys.len(),
        0 <= at < xs.len(),
        xs[at].0 == ys[n].0,
    ensures
        overlay_prefix(xs, ys, n, combine, fresh).len() > at,
        overlay_prefix(xs, ys, n, combine, fresh)[at] == xs[at],
        overlay_prefix(xs, ys, n + 1, combine, fresh) == overlay_prefix(
            xs,
            ys,
            n,
            combine,
            fresh,
        ).update(at, (xs[at].0, combine(xs[at].1, ys[n].1))),
{
    let before = ys.take(n);
    let after = ys.take(n + 1);
    assert(after.drop_last() =~= before);
    assert(after.last() == ys[n]);
    assert(has_key(xs, ys[n].0));
    assert(only_in(after, xs) == only_in(before, xs)) by {
        reveal(Seq::filter);
    }
    assert(!has_key(before, xs[at].0)) by {
        if has_key(before, xs[at].0) {
            let t = key_index(before, xs[at].0);
            assert(before[t].0 == ys[n].0);
            assert(ys[t].0 != ys[n].0);
        }
    }
    assert(after[n].0 == xs[at].0);
    assert(unique_keys(after));
    lemma_key_index(after, n);
    assert forall|i: int| 0 <= i < xs.len() && i != at implies has_key(after, xs[i].0) == has_key(
        before,
        xs[i].0,
    ) && (has_key(before, xs[i].0) ==> value_of(after, xs[i].0) == value_of(before, xs[i].0)) by {
        if has_key(after, xs[i].0) {
            let t = key_index(after, xs[i].0);
            assert(after[t].0 == xs[i].0);
            if i < at {
                assert(xs[i].0 != xs[at].0);
            } else {
                assert(xs[at].0 != xs[i].0);
            }
            assert(t != n);
            assert(before[t].0 == xs[i].0);
        }
        if has_key(before, xs[i].0) {
            let t = key_index(before, xs[i].0);
            assert(after[t].0 == xs[i].0);
            lemma_key_index(after, t);
            assert(unique_keys(before));
            lemma_key_index(before, t);
        }
    }
    assert(overlay_prefix(xs, ys, n + 1, combine, fresh) =~= overlay_prefix(
        xs,
        ys,
        n,
        combine,
        fresh,
    ).update(at, (xs[at].0, combine(xs[at].1, ys[n].1))));
}

/// Taking one more entry of `ys` whose key does not occur in `xs` appends a
/// fresh entry for it.
pub proof fn lemma_overlay_miss<T, U>(
    xs: Seq<(Seq<char>, T)>,
    ys: Seq<(Seq<char>, U)>,
    n: int,
    combine: spec_fn(T, U) -> T,
    fresh: spec_fn(U) -> T,
)
    requires
        unique_keys(xs),
        unique_keys(ys),
        0 <= n < ys.len(),
        !has_key(xs, ys[n].0),
    ensures
        overlay_prefix(xs, ys, n + 1, combine, fresh) == overlay_prefix(
            xs,
            ys,
            n,
            combine,
            fresh,
        ).push((ys[n].0, fresh(ys[n].1))),
{
    let before = ys.take(n);
    let after = ys.take(n + 1);
    assert(after.drop_last() =~= before);
    assert(after.last() == ys[n]);
    assert(only_in(after, xs) == only_in(before, xs).push(ys[n])) by {
        reveal(Seq::filter);
    }
    assert(unique_keys(after));
    assert(unique_keys(before));
    assert forall|i: int| 0 <= i < xs.len() implies has_key(after, xs[i].0) == has_key(
        before,
        xs[i].0,
    ) && (has_key(before, xs[i].0) ==> value_of(after, xs[i].0) == value_of(before, xs[i].0)) by {
        if has_key(after, xs[i].0) {
            let t = key_index(after, xs[i].0);
            assert(after[t].0 == xs[i].0);
            assert(t != n);
            assert(before[t].0 == xs[i].0);
        }
        if has_key(before, xs[i].0) {
            let t = key_index(before, xs[i].0);
            assert(after[t].0 == xs[i].0);
            lemma_key_index(after, t);
            lemma_key_index(before, t);
        }
    }
    assert(overlay_prefix(xs, ys, n + 1, combine, fresh) =~= overlay_prefix(
        xs,
        ys,
        n,
        combine,
        fresh,
    ).push((ys[n].0, fresh(ys[n].1))));
}

/// Where each entry of an overlay comes from.
pub proof fn lemma_overlay_entries<T, U>(
    xs: Seq<(Seq<char>, T)>,
    ys: Seq<(Seq<char>, U)>,
    combine: spec_fn(T, U) -> T,
    fresh: spec_fn(U) -> T,
)
    ensures
        overlay(xs, ys, combine, fresh).len() == xs.len() + only_in(ys, xs).len(),
        forall|i: int|
            0 <= i < xs.len() ==> (#[trigger] overlay(xs, ys, combine, fresh)[i]) == (if has_key(
                ys,
                xs[i].0,
            ) {
                (xs[i].0, combine(xs[i].1, value_of(ys, xs[i].0)))
            } else {
                xs[i]
            }),
        forall|i: int|
            xs.len() <= i < overlay(xs, ys, combine, fresh).len() ==> fresh_from(
                #[trigger] overlay(xs, ys, combine, fresh)[i],
                ys,
                fresh,
            ) && !has_key(xs, overlay(xs, ys, combine, fresh)[i].0),
        forall|j: int|
            0 <= j < ys.len() && !has_key(xs, (#[trigger] ys[j]).0) ==> overlay(
                xs,
                ys,
                combine,
                fresh,
            ).contains((ys[j].0, fresh(ys[j].1))),
        unique_keys(xs) && unique_keys(ys) ==> unique_keys(overlay(xs, ys, combine, fresh)),
{
    lemma_only_in(ys, xs);
    let tail = only_in(ys, xs);
    let all = overlay(xs, ys, combine, fresh);
    assert forall|i: int| xs.len() <= i < all.len() implies fresh_from(#[trigger] all[i], ys, fresh)
        && !has_key(xs, all[i].0) by {
        let e = tail[i - xs.len()];
        assert(all[i] == (e.0, fresh(e.1)));
        assert(ys.contains(e));
        let j = choose|j: int| 0 <= j < ys.len() && ys[j] == e;
        assert(all[i] == (ys[j].0, fresh(ys[j].1)));
    }
    assert forall|j: int| 0 <= j < ys.len() && !has_key(xs, (#[trigger] ys[j]).0) implies all.contains(
        (ys[j].0, fresh(ys[j].1)),
    ) by {
        assert(tail.contains(ys[j]));
        let i = choose|i: int| 0 <= i < tail.len() && tail[i] == ys[j];
        assert(all[xs.len() + i] == (ys[j].0, fresh(ys[j].1)));
    }
    if unique_keys(xs) && unique_keys(ys) {
        assert forall|i: int, j: int| 0 <= i < j < all.len() implies (#[trigger] all[i]).0 != (
        #[trigger] all[j]).0 by {
            if j < xs.len() {
                assert(all[i].0 == xs[i].0 && all[j].0 == xs[j].0);
            } else if i < xs.len() {
                assert(all[i].0 == xs[i].0);
                assert(!has_key(xs, all[j].0));
            } else {
                assert(all[i].0 == tail[i - xs.len()].0);
                assert(all[j].0 == tail[j - xs.len()].0);
            }
        }
    }
}

/// Under which key of an overlay which value stands.
pub proof fn lemma_overlay_lookup<T, U>(
    xs: Seq<(Seq<char>, T)>,
    ys: Seq<(Seq<char>, U)>,
    combine: spec_fn(T, U) -> T,
    fresh: spec_fn(U) -> T,
    key: Seq<char>,
)
    requires
        unique_keys(xs),
        unique_keys(ys),
    ensures
        has_key(overlay(xs, ys, combine, fresh), key) == (has_key(xs, key) || has_key(ys, key)),
        has_key(xs, key) && has_key(ys, key) ==> value_of(overlay(xs, ys, combine, fresh), key)
            == combine(value_of(xs, key), value_of(ys, key)),
        has_key(xs, key) && !has_key(ys, key) ==> value_of(overlay(xs, ys, combine, fresh), key)
            == value_of(xs, key),
        !has_key(xs, key) && has_key(ys, key) ==> value_of(overlay(xs, ys, combine, fresh), key)
            == fresh(value_of(ys, key)),
{
    let all = overlay(xs, ys, combine, fresh);
    lemma_overlay_entries(xs, ys, combine, fresh);
    if has_key(xs, key) {
        let i = key_index(xs, key);
        assert(xs[i].0 == key);
        lemma_key_index(xs, i);
        assert(all[i].0 == key);
        lemma_key_index(all, i);
    } else if has_key(ys, key) {
        let j = key_index(ys, key);
        assert(ys[j].0 == key);
        lemma_key_index(ys, j);
        assert(all.contains((ys[j].0, fresh(ys[j].1))));
        let i = choose|i: int| 0 <= i < all.len() && all[i] == (ys[j].0, fresh(ys[j].1));
        lemma_key_index(all, i);
    } else {
        if has_key(all, key) {
            let i = key_index(all, key);
            assert(all[i].0 == key);
            if i < xs.len() {
                assert(xs[i].0 == key);
            } else {
                assert(fresh_from(all[i], ys, fresh));
                let j = choose|j: int| 0 <= j < ys.len() && all[i] == ((#[trigger] ys[j]).0, fresh(ys[j].1));
                assert(ys[j].0 == key);
            }
        }
    }
}

/// Finds the entry named `key`.
pub fn find_key<T>(entries: &Vec<(String, T)>, key: &String) -> (found: Option<usize>)
    ensures
        match found {
            Some(i) => i < entries.len() && entries[i as int].0@ == key@ && forall|j: int|
                0 <= j < i ==> (#[trigger] entries[j]).0@ != key@,
            None => forall|j: int| 0 <= j < entries.len() ==> (#[trigger] entries[j]).0@ != key@,
        },
{
    let mut i: usize = 0;
    while i < entries.len()
        invariant
            i <= entries.len(),
            forall|j: int| 0 <= j < i ==> (#[trigger] entries[j]).0@ != key@,
        decreases entries.len() - i,
    {
        if entries[i].0 == *key {
            return Some(i);
        }
        i += 1;
    }
    None
}

} // verus!
