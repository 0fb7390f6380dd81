//! That the steps fit together: a document can be filled up to the
//! normalized schema of itself, and the filled document can be written out
//! along the reduced schema.

use vstd::prelude::*;
use crate::entries::{
    fresh_from, has_key, key_index, lemma_key_index, lemma_overlay_entries, lemma_overlay_lookup,
    unique_keys, value_of,
};
use crate::fill::{
    conforms, fill_values, filled, fresh_value, fresh_values, initial, lemma_filled_table, shape,
};
use crate::instantiate::{has_shape, instantiable};
use crate::reduce::{all_same, reduce, reduced_entries, reduced_items};
use crate::normalize::{
    first_conflict, first_failure, joined, keep_value, lemma_joined_is_overlay,
    lemma_no_conflict, lemma_no_failure, lemma_normalize_gives_normal_form, lemma_union_preserves,
    normalize, normalized_entries, unify_from, unify_values, union,
};
use crate::schema::Schema;
use crate::value::Doc;

verus! {

/// Whether a schema admits a document: a scalar of its kind, a datetime
/// with no component that the schema lacks, an array whose elements the
/// element schema admits, and a table each of whose keys the schema has,
/// with a value that the schema of the key admits.
pub open spec fn admits(s: Schema, d: Doc) -> bool
    decreases d,
{
    match (s, d) {
        (Schema::Str, Doc::Str(_)) => true,
        (Schema::Int, Doc::Int(_)) => true,
        (Schema::Float, Doc::Float(_)) => true,
        (Schema::Bool, Doc::Bool(_)) => true,
        (Schema::Datetime { date, time, offset }, Doc::Datetime(dt)) => (dt.date is Some ==> date)
            && (dt.time is Some ==> time) && (dt.offset is Some ==> offset),
        (Schema::Array(items), Doc::Array(values)) => values.len() > 0 ==> items.len() > 0
            && forall|i: int| 0 <= i < values.len() ==> admits(items[0], #[trigger] values[i]),
        (Schema::Table(entries), Doc::Table(map)) => forall|i: int|
            0 <= i < map.len() ==> has_key(entries, (#[trigger] map[i]).0) && admits(
                value_of(entries, map[i].0),
                map[i].1,
            ),
        _ => false,
    }
}

/// What the first of two schemas admits, their union admits.
pub proof fn lemma_union_admits_left(a: Schema, b: Schema, d: Doc)
    requires
        a.well_formed(),
        b.well_formed(),
        union(a, b) is Ok,
        admits(a, d),
    ensures
        admits(union(a, b)->Ok_0, d),
    decreases d,
{
    let u = union(a, b)->Ok_0;
    match (a, b, d) {
        (Schema::Array(xs), Schema::Array(ys), Doc::Array(values)) => {
            assert(Doc::Array(values)->Array_0 == values);
            if values.len() > 0 {
                assert(admits(xs[0], values[0]));
                if ys.len() > 0 {
                    let e = union(xs[0], ys[0])->Ok_0;
                    assert(u == Schema::Array(seq![e]));
                    assert forall|i: int| 0 <= i < values.len() implies admits(
                        e,
                        #[trigger] values[i],
                    ) by {
                        lemma_union_admits_left(xs[0], ys[0], values[i]);
                    }
                    assert(seq![e][0] == e);
                } else {
                    assert(u == Schema::Array(seq![xs[0]]));
                    assert(seq![xs[0]][0] == xs[0]);
                }
            }
        },
        (Schema::Table(xs), Schema::Table(ys), Doc::Table(map)) => {
            let all = joined(xs, ys);
            assert(u == Schema::Table(all));
            lemma_joined_is_overlay(xs, ys);
            lemma_no_conflict(xs, ys, 0);
            assert forall|i: int| 0 <= i < map.len() implies has_key(all, (#[trigger] map[i]).0)
                && admits(value_of(all, map[i].0), map[i].1) by {
                let key = map[i].0;
                lemma_overlay_lookup(xs, ys, unify_values(), keep_value(), key);
                let at = key_index(xs, key);
                assert(xs[at].0 == key);
                lemma_key_index(xs, at);
                if has_key(ys, key) {
                    let t = key_index(ys, key);
                    assert(ys[t].0 == key);
                    lemma_key_index(ys, t);
                    assert(has_key(xs, ys[t].0));
                    assert(union(xs[at].1, ys[t].1) is Ok);
                    lemma_union_admits_left(xs[at].1, ys[t].1, map[i].1);
                }
            }
        },
        _ => {},
    }
}

/// What the second of two schemas admits, their union admits.
pub proof fn lemma_union_admits_right(a: Schema, b: Schema, d: Doc)
    requires
        a.well_formed(),
        b.well_formed(),
        union(a, b) is Ok,
        admits(b, d),
    ensures
        admits(union(a, b)->Ok_0, d),
    decreases d,
{
    let u = union(a, b)->Ok_0;
    match (a, b, d) {
        (Schema::Array(xs), Schema::Array(ys), Doc::Array(values)) => {
            assert(Doc::Array(values)->Array_0 == values);
            if values.len() > 0 {
                assert(admits(ys[0], values[0]));
                if xs.len() > 0 {
                    let e = union(xs[0], ys[0])->Ok_0;
                    assert(u == Schema::Array(seq![e]));
                    assert forall|i: int| 0 <= i < values.len() implies admits(
                        e,
                        #[trigger] values[i],
                    ) by {
                        lemma_union_admits_right(xs[0], ys[0], values[i]);
                    }
                    assert(seq![e][0] == e);
                } else {
                    assert(u == Schema::Array(seq![ys[0]]));
                    assert(seq![ys[0]][0] == ys[0]);
                }
            }
        },
        (Schema::Table(xs), Schema::Table(ys), Doc::Table(map)) => {
            let all = joined(xs, ys);
            assert(u == Schema::Table(all));
            lemma_joined_is_overlay(xs, ys);
            lemma_no_conflict(xs, ys, 0);
            assert forall|i: int| 0 <= i < map.len() implies has_key(all, (#[trigger] map[i]).0)
                && admits(value_of(all, map[i].0), map[i].1) by {
                let key = map[i].0;
                lemma_overlay_lookup(xs, ys, unify_values(), keep_value(), key);
                let t = key_index(ys, key);
                assert(ys[t].0 == key);
                lemma_key_index(ys, t);
                if has_key(xs, key) {
                    let at = key_index(xs, key);
                    assert(xs[at].0 == key);
                    lemma_key_index(xs, at);
                    assert(has_key(xs, ys[t].0));
                    assert(union(xs[at].1, ys[t].1) is Ok);
                    lemma_union_admits_right(xs[at].1, ys[t].1, map[i].1);
                }
            }
        },
        _ => {},
    }
}

/// The schemas of the elements of an array.
pub open spec fn shapes(values: Seq<Doc>) -> Seq<Schema> {
    shape(Doc::Array(values))->Array_0
}

/// Folding the normalized schemas of the elements of an array into a schema
/// that admits the elements before `from` gives a schema that admits all
/// elements.
pub proof fn lemma_unify_admits(acc: Schema, values: Seq<Doc>, from: nat)
    requires
        acc.is_normalized(),
        Doc::Array(values).well_formed(),
        shape(Doc::Array(values)).datetimes_present(),
        unify_from(acc, shapes(values), from) is Ok,
        from <= values.len(),
        forall|j: int| 0 <= j < from ==> admits(acc, #[trigger] values[j]),
    ensures
        forall|j: int|
            0 <= j < values.len() ==> admits(
                unify_from(acc, shapes(values), from)->Ok_0,
                #[trigger] values[j],
            ),
    decreases values, values.len() - from,
{
    let items = shapes(values);
    assert(Doc::Array(values)->Array_0 == values);
    assert(Schema::Array(items)->Array_0 == items);
    if from < values.len() {
        let v = values[from as int];
        assert(items[from as int] == shape(v));
        assert(v.well_formed());
        assert(items[from as int].datetimes_present());
        crate::fill::lemma_shape_is_plain(v);
        let x = normalize(items[from as int])->Ok_0;
        lemma_normalize_gives_normal_form(items[from as int]);
        lemma_normalize_admits(v);
        let u = union(acc, x)->Ok_0;
        lemma_union_preserves(acc, x);
        assert forall|j: int| 0 <= j < from + 1 implies admits(u, #[trigger] values[j]) by {
            if j < from {
                lemma_union_admits_left(acc, x, values[j]);
            } else {
                lemma_union_admits_right(acc, x, values[j]);
            }
        }
        lemma_unify_admits(u, values, from + 1);
    }
}

/// The normalized schema of a document admits the document.
pub proof fn lemma_normalize_admits(d: Doc)
    requires
        d.well_formed(),
        shape(d).datetimes_present(),
        normalize(shape(d)) is Ok,
    ensures
        admits(normalize(shape(d))->Ok_0, d),
    decreases d, 0nat,
{
    let n = normalize(shape(d))->Ok_0;
    match d {
        Doc::Array(values) => {
            let items = shapes(values);
            assert(Doc::Array(values)->Array_0 == values);
            assert(Schema::Array(items)->Array_0 == items);
            if values.len() > 0 {
                assert(items[0] == shape(values[0]));
                assert(values[0].well_formed());
                assert(items[0].datetimes_present());
                crate::fill::lemma_shape_is_plain(values[0]);
                lemma_normalize_gives_normal_form(items[0]);
                lemma_normalize_admits(values[0]);
                let first = normalize(items[0])->Ok_0;
                lemma_unify_admits(first, values, 1);
                let e = unify_from(first, items, 1)->Ok_0;
                assert(n == Schema::Array(seq![e]));
                assert(seq![e][0] == e);
            }
        },
        Doc::Table(map) => {
            let entries = shape(d)->Table_0;
            assert(Doc::Table(map)->Table_0 == map);
            assert(Schema::Table(entries)->Table_0 == entries);
            lemma_no_failure(entries, 0);
            let all = normalized_entries(entries);
            assert(n == Schema::Table(all));
            crate::fill::lemma_shape_is_plain(d);
            lemma_normalize_gives_normal_form(shape(d));
            assert(unique_keys(all));
            assert forall|i: int| 0 <= i < map.len() implies has_key(all, (#[trigger] map[i]).0)
                && admits(value_of(all, map[i].0), map[i].1) by {
                assert(entries[i] == (map[i].0, shape(map[i].1)));
                assert(all[i].0 == map[i].0);
                lemma_key_index(all, i);
                assert(map[i].1.well_formed());
                assert(entries[i].1.datetimes_present());
                lemma_normalize_admits(map[i].1);
            }
        },
        _ => {},
    }
}

/// A document conforms to a schema that admits it.
pub proof fn lemma_admitted_conforms(s: Schema, d: Doc)
    requires
        s.well_formed(),
        d.well_formed(),
        admits(s, d),
    ensures
        conforms(s, d),
    decreases s,
{
    match (s, d) {
        (Schema::Array(items), Doc::Array(values)) => {
            assert(Doc::Array(values)->Array_0 == values);
            if items.len() > 0 {
                assert forall|i: int| 0 <= i < values.len() implies conforms(
                    items[0],
                    #[trigger] values[i],
                ) by {
                    assert(values[i].well_formed());
                    lemma_admitted_conforms(items[0], values[i]);
                }
            }
        },
        (Schema::Table(entries), Doc::Table(map)) => {
            assert(Doc::Table(map)->Table_0 == map);
            assert forall|i: int|
                0 <= i < entries.len() && has_key(map, (#[trigger] entries[i]).0) implies conforms(
                entries[i].1,
                value_of(map, entries[i].0),
            ) by {
                let t = key_index(map, entries[i].0);
                assert(map[t].0 == entries[i].0);
                lemma_key_index(entries, i);
                assert(map[t].1.well_formed());
                lemma_admitted_conforms(entries[i].1, map[t].1);
            }
        },
        _ => {},
    }
}

/// A document conforms to the normalized schema of itself, so that it can
/// be filled up to it.
pub proof fn lemma_document_conforms(d: Doc)
    requires
        d.well_formed(),
        shape(d).datetimes_present(),
        normalize(shape(d)) is Ok,
    ensures
        conforms(normalize(shape(d))->Ok_0, d),
{
    crate::fill::lemma_shape_is_plain(d);
    lemma_normalize_gives_normal_form(shape(d));
    lemma_normalize_admits(d);
    lemma_admitted_conforms(normalize(shape(d))->Ok_0, d);
}

/// Whether a document has exactly what a schema describes: the kinds of its
/// values, the components of its datetimes, and the keys of its tables.
pub open spec fn fits(s: Schema, d: Doc) -> bool
    decreases d,
{
    match (s, d) {
        (Schema::Str, Doc::Str(_)) => true,
        (Schema::Int, Doc::Int(_)) => true,
        (Schema::Float, Doc::Float(_)) => true,
        (Schema::Bool, Doc::Bool(_)) => true,
        (Schema::Datetime { date, time, offset }, Doc::Datetime(dt)) => (dt.date is Some) == date
            && (dt.time is Some) == time && (dt.offset is Some) == offset,
        (Schema::Array(items), Doc::Array(values)) => values.len() > 0 ==> items.len() > 0
            && forall|i: int| 0 <= i < values.len() ==> fits(items[0], #[trigger] values[i]),
        (Schema::Table(entries), Doc::Table(map)) => {
            &&& forall|i: int|
                0 <= i < map.len() ==> has_key(entries, (#[trigger] map[i]).0) && fits(
                    value_of(entries, map[i].0),
                    map[i].1,
                )
            &&& forall|j: int| 0 <= j < entries.len() ==> has_key(map, (#[trigger] entries[j]).0)
        },
        _ => false,
    }
}

/// The default document of a schema fits the schema and has unique keys.
pub proof fn lemma_initial_fits(s: Schema)
    requires
        s.well_formed(),
        s.is_plain(),
        s.arrays_unified(),
    ensures
        fits(s, initial(s)),
        initial(s).well_formed(),
    decreases s,
{
    match s {
        Schema::Array(items) => {
            let values = initial(s)->Array_0;
            assert(Doc::Array(values)->Array_0 == values);
            if items.len() > 0 {
                lemma_initial_fits(items[0]);
                assert forall|i: int| 0 <= i < values.len() implies fits(items[0], #[trigger] values[i])
                    && values[i].well_formed() by {
                    assert(values[i] == initial(items[0]));
                }
            }
        },
        Schema::Table(entries) => {
            let map = initial(s)->Table_0;
            assert(Doc::Table(map)->Table_0 == map);
            assert forall|i: int, j: int| 0 <= i < j < map.len() implies (#[trigger] map[i]).0 != (
            #[trigger] map[j]).0 by {
                assert(entries[i].0 != entries[j].0);
            }
            assert forall|i: int| 0 <= i < map.len() implies has_key(entries, (#[trigger] map[i]).0)
                && fits(value_of(entries, map[i].0), map[i].1) && map[i].1.well_formed() by {
                assert(map[i] == (entries[i].0, initial(entries[i].1)));
                lemma_key_index(entries, i);
                lemma_initial_fits(entries[i].1);
            }
            assert forall|j: int| 0 <= j < entries.len() implies has_key(
                map,
                (#[trigger] entries[j]).0,
            ) by {
                assert(map[j].0 == entries[j].0);
            }
        },
        _ => {},
    }
}

/// The fresh value of a schema fits the schema and has unique keys.
pub proof fn lemma_fresh_fits(s: Schema)
    requires
        s.well_formed(),
        s.is_plain(),
        s.arrays_unified(),
    ensures
        fits(s, fresh_value(s)),
        fresh_value(s).well_formed(),
{
    match s {
        Schema::Array(_) => {
            let empty = Seq::<Doc>::empty();
            assert(Doc::Array(empty)->Array_0 == empty);
        },
        _ => {
            lemma_initial_fits(s);
        },
    }
}

/// A document that a normalized schema admits fits the schema once it is
/// filled up to it, and its keys are still unique.
pub proof fn lemma_filled_fits(s: Schema, d: Doc)
    requires
        s.well_formed(),
        s.is_plain(),
        s.arrays_unified(),
        d.well_formed(),
        admits(s, d),
    ensures
        fits(s, filled(s, d)),
        filled(s, d).well_formed(),
    decreases d,
{
    match (s, d) {
        (Schema::Array(items), Doc::Array(values)) => {
            assert(Doc::Array(values)->Array_0 == values);
            if items.len() > 0 {
                let done = filled(s, d)->Array_0;
                assert(Doc::Array(done)->Array_0 == done);
                assert forall|i: int| 0 <= i < done.len() implies fits(items[0], #[trigger] done[i])
                    && done[i].well_formed() by {
                    assert(values[i].well_formed());
                    assert(admits(items[0], values[i]));
                    lemma_filled_fits(items[0], values[i]);
                }
            } else {
                assert(values.len() == 0);
            }
        },
        (Schema::Table(entries), Doc::Table(map)) => {
            assert(Doc::Table(map)->Table_0 == map);
            lemma_filled_table(entries, map);
            let done = crate::entries::overlay(map, entries, fill_values(), fresh_values());
            assert(filled(s, d) == Doc::Table(done));
            assert(Doc::Table(done)->Table_0 == done);
            lemma_overlay_entries(map, entries, fill_values(), fresh_values());
            assert forall|i: int| 0 <= i < done.len() implies has_key(entries, (#[trigger] done[i]).0)
                && fits(value_of(entries, done[i].0), done[i].1) && done[i].1.well_formed() by {
                if i < map.len() {
                    assert(has_key(entries, map[i].0));
                    assert(map[i].1.well_formed());
                    let t = key_index(entries, map[i].0);
                    assert(entries[t].0 == map[i].0);
                    assert(entries[t].1.well_formed());
                    lemma_filled_fits(value_of(entries, map[i].0), map[i].1);
                } else {
                    assert(fresh_from(done[i], entries, fresh_values()));
                    let j = choose|j: int|
                        0 <= j < entries.len() && done[i] == ((#[trigger] entries[j]).0, fresh_values()(
                            entries[j].1,
                        ));
                    lemma_key_index(entries, j);
                    assert(entries[j].1.well_formed());
                    lemma_fresh_fits(entries[j].1);
                }
            }
            assert forall|j: int| 0 <= j < entries.len() implies has_key(
                done,
                (#[trigger] entries[j]).0,
            ) by {
                lemma_key_index(entries, j);
                lemma_overlay_lookup(map, entries, fill_values(), fresh_values(), entries[j].0);
            }
        },
        _ => {},
    }
}

/// A document that fits a schema with resolved datetimes can be written out
/// along it.
pub proof fn lemma_fitting_is_instantiable(s: Schema, d: Doc)
    requires
        s.datetimes_resolved(),
        fits(s, d),
    ensures
        instantiable(s, d),
    decreases d,
{
    match (s, d) {
        (Schema::Array(items), Doc::Array(values)) => {
            assert(Doc::Array(values)->Array_0 == values);
            if values.len() > 0 {
                assert forall|i: int| 0 <= i < values.len() implies instantiable(
                    items[0],
                    #[trigger] values[i],
                ) by {
                    lemma_fitting_is_instantiable(items[0], values[i]);
                }
            }
        },
        (Schema::Table(entries), Doc::Table(map)) => {
            assert(Doc::Table(map)->Table_0 == map);
            assert forall|i: int| 0 <= i < map.len() implies has_key(entries, (#[trigger] map[i]).0)
                && instantiable(value_of(entries, map[i].0), map[i].1) by {
                let t = key_index(entries, map[i].0);
                assert(entries[t].0 == map[i].0);
                assert(entries[t].1.datetimes_resolved());
                lemma_fitting_is_instantiable(value_of(entries, map[i].0), map[i].1);
            }
        },
        _ => {},
    }
}

/// What can be written out along a schema can be written out along every
/// schema that is the same.
pub proof fn lemma_same_instantiable(a: Schema, b: Schema, d: Doc)
    requires
        a.well_formed(),
        b.well_formed(),
        a.same(b),
        instantiable(b, d),
    ensures
        instantiable(a, d),
    decreases d,
{
    match d {
        Doc::Array(values) => {
            assert(Doc::Array(values)->Array_0 == values);
            match (a, b) {
                (Schema::Array(xs), Schema::Array(ys)) => {
                    if values.len() > 0 {
                        assert(xs[0].same(ys[0]));
                        assert forall|i: int| 0 <= i < values.len() implies instantiable(
                            xs[0],
                            #[trigger] values[i],
                        ) by {
                            lemma_same_instantiable(xs[0], ys[0], values[i]);
                        }
                    }
                },
                _ => {},
            }
        },
        Doc::Table(map) => {
            assert(Doc::Table(map)->Table_0 == map);
            match (a, b) {
                (Schema::Table(xs), Schema::Table(ys)) => {
                    assert forall|i: int| 0 <= i < map.len() implies has_key(
                        xs,
                        (#[trigger] map[i]).0,
                    ) && instantiable(value_of(xs, map[i].0), map[i].1) by {
                        let key = map[i].0;
                        let t = key_index(ys, key);
                        assert(ys[t].0 == key);
                        lemma_key_index(ys, t);
                        assert(has_key(xs, ys[t].0));
                        let at = key_index(xs, key);
                        assert(xs[at].0 == key);
                        assert(xs[at].1.same(value_of(ys, xs[at].0)));
                        assert(xs[at].1.well_formed() && ys[t].1.well_formed());
                        lemma_same_instantiable(xs[at].1, ys[t].1, map[i].1);
                    }
                },
                (
                    Schema::TableMap { keys: lk, shared: ls },
                    Schema::TableMap { keys: rk, shared: rs },
                ) => {
                    assert forall|i: int| 0 <= i < map.len() implies instantiable(
                        *ls,
                        (#[trigger] map[i]).1,
                    ) by {
                        lemma_same_instantiable(*ls, *rs, map[i].1);
                    }
                },
                _ => {},
            }
        },
        _ => {},
    }
}

/// A document that fits a schema can be written out along the reduced
/// schema.
pub proof fn lemma_reduced_instantiable(s: Schema, d: Doc)
    requires
        s.well_formed(),
        s.is_plain(),
        s.datetimes_resolved(),
        fits(s, d),
    ensures
        instantiable(reduce(s), d),
    decreases d,
{
    match (s, d) {
        (Schema::Array(items), Doc::Array(values)) => {
            assert(Doc::Array(values)->Array_0 == values);
            let inner = reduced_items(items);
            if values.len() > 0 {
                assert(inner[0] == reduce(items[0]));
                assert forall|i: int| 0 <= i < values.len() implies instantiable(
                    inner[0],
                    #[trigger] values[i],
                ) by {
                    lemma_reduced_instantiable(items[0], values[i]);
                }
            }
        },
        (Schema::Table(entries), Doc::Table(map)) => {
            assert(Doc::Table(map)->Table_0 == map);
            let inner = reduced_entries(entries);
            if entries.len() == 0 {
                if map.len() > 0 {
                    assert(has_key(entries, map[0].0));
                }
            } else {
                assert forall|j: int| 0 <= j < inner.len() implies (#[trigger] inner[j]).1.well_formed() by {
                    assert(entries[j].1.well_formed());
                    crate::reduce::lemma_reduce_preserves(entries[j].1);
                }
                assert forall|i: int| 0 <= i < map.len() implies instantiable(
                    reduce(value_of(entries, (#[trigger] map[i]).0)),
                    map[i].1,
                ) by {
                    let t = key_index(entries, map[i].0);
                    assert(entries[t].0 == map[i].0);
                    assert(entries[t].1.well_formed() && entries[t].1.is_plain()
                        && entries[t].1.datetimes_resolved());
                    lemma_reduced_instantiable(entries[t].1, map[i].1);
                }
                if all_same(inner) {
                    let keys = crate::entries::keys_of(inner);
                    assert(reduce(s) == Schema::TableMap { keys, shared: Box::new(inner[0].1) });
                    assert forall|j: int| 0 <= j < keys.len() implies has_key(map, #[trigger] keys[j]) by {
                        assert(keys[j] == entries[j].0);
                    }
                    assert forall|i: int| 0 <= i < map.len() implies instantiable(
                        inner[0].1,
                        (#[trigger] map[i]).1,
                    ) by {
                        let t = key_index(entries, map[i].0);
                        assert(entries[t].0 == map[i].0);
                        assert(inner[t].1 == reduce(entries[t].1));
                        assert(inner[0].1.same(inner[t].1));
                        lemma_same_instantiable(inner[0].1, inner[t].1, map[i].1);
                    }
                } else {
                    assert(reduce(s) == Schema::Table(inner));
                    assert forall|i: int, j: int| 0 <= i < j < inner.len() implies (
                    #[trigger] inner[i]).0 != (#[trigger] inner[j]).0 by {
                        assert(entries[i].0 != entries[j].0);
                    }
                    assert forall|i: int| 0 <= i < map.len() implies has_key(
                        inner,
                        (#[trigger] map[i]).0,
                    ) && instantiable(value_of(inner, map[i].0), map[i].1) by {
                        let t = key_index(entries, map[i].0);
                        assert(entries[t].0 == map[i].0);
                        assert(inner[t] == (entries[t].0, reduce(entries[t].1)));
                        lemma_key_index(inner, t);
                        lemma_key_index(entries, t);
                    }
                }
            }
        },
        (Schema::Datetime { .. }, Doc::Datetime(_)) => {},
        _ => {},
    }
}

/// The steps fit together: once a document is filled up to the normalized
/// schema of itself, it has unique keys and can be written out along the
/// reduced schema.
pub proof fn lemma_filled_is_instantiable(d: Doc)
    requires
        d.well_formed(),
        shape(d).datetimes_present(),
        normalize(shape(d)) is Ok,
    ensures
        filled(normalize(shape(d))->Ok_0, d).well_formed(),
        instantiable(reduce(normalize(shape(d))->Ok_0), filled(normalize(shape(d))->Ok_0, d)),
{
    let n = normalize(shape(d))->Ok_0;
    crate::fill::lemma_shape_is_plain(d);
    lemma_normalize_gives_normal_form(shape(d));
    lemma_normalize_admits(d);
    lemma_filled_fits(n, d);
    lemma_reduced_instantiable(n, filled(n, d));
}

} // verus!
