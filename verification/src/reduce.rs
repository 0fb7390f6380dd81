//! Reduction: a table whose values all have the same schema becomes a table
//! map of its keys and that one schema.

use vstd::prelude::*;
use crate::entries::keys_of;
use crate::schema::{
    entries_of, lemma_view_array, lemma_view_table, schemas_of, texts, Schema, TomlValue,
};

verus! {

/// The reduced form of a schema.
///
/// The elements of an array and the values of a table are reduced first.  A
/// table with at least one entry whose reduced values are all the same as the
/// first becomes the table map of its keys, in their order, and that value.
/// An empty table, a table map and a scalar are left as they are.
pub open spec fn reduce(s: Schema) -> Schema
    decreases s, 0nat,
{
    match s {
        Schema::Table(entries) => {
            if entries.len() == 0 {
                s
            } else if all_same(reduced_entries(entries)) {
                Schema::TableMap {
                    keys: keys_of(reduced_entries(entries)),
                    shared: Box::new(reduced_entries(entries)[0].1),
                }
            } else {
                Schema::Table(reduced_entries(entries))
            }
        },
        Schema::Array(items) => Schema::Array(reduced_items(items)),
        other => other,
    }
}

/// The entries with each value reduced.
pub open spec fn reduced_entries(entries: Seq<(Seq<char>, Schema)>) -> Seq<(Seq<char>, Schema)>
    decreases entries, 0nat,
{
    Seq::new(
        entries.len(),
        |i: int|
            if 0 <= i < entries.len() {
                (entries[i].0, reduce(entries[i].1))
            } else {
                entries[i]
            },
    )
}

/// The items, each reduced.
pub open spec fn reduced_items(items: Seq<Schema>) -> Seq<Schema>
    decreases items, 0nat,
{
    Seq::new(
        items.len(),
        |i: int|
            if 0 <= i < items.len() {
                reduce(items[i])
            } else {
                items[i]
            },
    )
}

/// Every value is the same schema as the first.
pub open spec fn all_same(entries: Seq<(Seq<char>, Schema)>) -> bool {
    forall|i: int| 0 <= i < entries.len() ==> entries[0].1.same((#[trigger] entries[i]).1)
}

/// Reducing twice is reducing once.
pub proof fn lemma_reduce_idempotent(s: Schema)
    ensures
        reduce(reduce(s)) == reduce(s),
    decreases s,
{
    match s {
        Schema::Table(entries) => {
            let inner = reduced_entries(entries);
            if entries.len() > 0 && !all_same(inner) {
                assert forall|i: int| 0 <= i < inner.len() implies reduced_entries(inner)[i]
                    == inner[i] by {
                    lemma_reduce_idempotent(entries[i].1);
                }
                assert(reduced_entries(inner) =~= inner);
            }
        },
        Schema::Array(items) => {
            let inner = reduced_items(items);
            assert forall|i: int| 0 <= i < inner.len() implies reduced_items(inner)[i]
                == inner[i] by {
                lemma_reduce_idempotent(items[i]);
            }
            assert(reduced_items(inner) =~= inner);
        },
        _ => {},
    }
}

/// Reduction keeps keys unique, arrays unified and datetimes resolved.
pub proof fn lemma_reduce_preserves(s: Schema)
    ensures
        s.well_formed() ==> reduce(s).well_formed(),
        s.arrays_unified() ==> reduce(s).arrays_unified(),
        s.datetimes_resolved() ==> reduce(s).datetimes_resolved(),
    decreases s,
{
    match s {
        Schema::Table(entries) => {
            let inner = reduced_entries(entries);
            assert forall|i: int| 0 <= i < inner.len() implies {
                &&& (s.well_formed() ==> (#[trigger] inner[i]).1.well_formed())
                &&& (s.arrays_unified() ==> inner[i].1.arrays_unified())
                &&& (s.datetimes_resolved() ==> inner[i].1.datetimes_resolved())
            } by {
                lemma_reduce_preserves(entries[i].1);
            }
            if s.well_formed() {
                assert forall|i: int, j: int| 0 <= i < j < inner.len() implies (
                #[trigger] inner[i]).0 != (#[trigger] inner[j]).0 by {
                    assert(entries[i].0 != entries[j].0);
                }
                let keys = keys_of(inner);
                assert forall|i: int, j: int|
                    0 <= i < keys.len() && 0 <= j < keys.len() && i != j implies keys[i]
                    != keys[j] by {
                    if i < j {
                        assert(inner[i].0 != inner[j].0);
                    } else {
                        assert(inner[j].0 != inner[i].0);
                    }
                }
            }
        },
        Schema::Array(items) => {
            let inner = reduced_items(items);
            assert forall|i: int| 0 <= i < inner.len() implies {
                &&& (s.well_formed() ==> (#[trigger] inner[i]).well_formed())
                &&& (s.arrays_unified() ==> inner[i].arrays_unified())
                &&& (s.datetimes_resolved() ==> inner[i].datetimes_resolved())
            } by {
                lemma_reduce_preserves(items[i]);
            }
        },
        _ => {},
    }
}

/// Whether every schema of a non-empty list is the same as the first.
pub fn all_like_first(values: &Vec<TomlValue>) -> (uniform: bool)
    requires
        values.len() > 0,
        forall|j: int| 0 <= j < values.len() ==> (#[trigger] values[j])@.well_formed(),
    ensures
        uniform == forall|j: int| 0 <= j < values.len() ==> values[0]@.same((#[trigger] values[j])@),
{
    let mut k: usize = 0;
    while k < values.len()
        invariant
            k <= values.len(),
            values.len() > 0,
            forall|j: int| 0 <= j < values.len() ==> (#[trigger] values[j])@.well_formed(),
            forall|j: int| 0 <= j < k ==> values[0]@.same((#[trigger] values[j])@),
        decreases values.len() - k,
    {
        if !values[0].same_as(&values[k]) {
            return false;
        }
        k += 1;
    }
    true
}

impl TomlValue {
    /// Transforms tables with identical values to table maps.
    pub fn reduce(self) -> (reduced: Self)
        requires
            self@.well_formed(),
        ensures
            reduced@ == reduce(self@),
    {
        self.reduced()
    }

    /// The reduced form of `self`, which is left as it is.
    #[verifier::loop_isolation(false)]
    pub fn reduced(&self) -> (reduced: Self)
        requires
            self@.well_formed(),
        ensures
            reduced@ == reduce(self@),
        decreases self,
    {
        match self {
            TomlValue::Table(tab) => {
                let ghost entries = entries_of(tab@);
                proof {
                    lemma_view_table(*tab);
                    assert(Schema::Table(entries).well_formed());
                }
                if tab.len() == 0 {
                    return self.clone();
                }
                let ghost inner = reduced_entries(entries);
                let mut keys: Vec<String> = Vec::new();
                let mut values: Vec<TomlValue> = Vec::new();
                let mut i: usize = 0;
                while i < tab.len()
                    invariant
                        i <= tab.len(),
                        keys.len() == i,
                        values.len() == i,
                        forall|j: int| 0 <= j < i ==> (#[trigger] keys[j])@ == inner[j].0,
                        forall|j: int| 0 <= j < i ==> (#[trigger] values[j])@ == inner[j].1,
                    decreases tab.len() - i,
                {
                    assert(entries[i as int] == (tab[i as int].0@, tab[i as int].1@));
                    assert(entries[i as int].1.well_formed());
                    keys.push(tab[i].0.clone());
                    values.push(tab[i].1.reduced());
                    i += 1;
                }
                proof {
                    assert forall|j: int| 0 <= j < inner.len() implies (
                    #[trigger] inner[j]).1.well_formed() by {
                        assert(entries[j].1.well_formed());
                        lemma_reduce_preserves(entries[j].1);
                    }
                }
                let uniform = all_like_first(&values);
                assert(uniform == all_same(inner)) by {
                    assert(forall|j: int| 0 <= j < inner.len() ==> values[j]@ == (#[trigger] inner[j]).1);
                }
                if uniform {
                    assert(all_same(inner));
                    assert(texts(keys@) =~= keys_of(inner));
                    TomlValue::TableMap { keys, value_type: Box::new(values[0].clone()) }
                } else {
                    let mut reduced: Vec<(String, TomlValue)> = Vec::new();
                    let mut t: usize = 0;
                    while t < keys.len()
                        invariant
                            t <= keys.len(),
                            reduced.len() == t,
                            forall|j: int|
                                0 <= j < t ==> (#[trigger] reduced[j]).0@ == inner[j].0
                                    && reduced[j].1@ == inner[j].1,
                        decreases keys.len() - t,
                    {
                        reduced.push((keys[t].clone(), values[t].clone()));
                        t += 1;
                    }
                    proof {
                        lemma_view_table(reduced);
                        assert(entries_of(reduced@) =~= inner);
                    }
                    TomlValue::Table(reduced)
                }
            },
            TomlValue::Array(arr) => {
                let ghost items = schemas_of(arr@);
                proof {
                    lemma_view_array(*arr);
                    assert(Schema::Array(items).well_formed());
                }
                let mut reduced: Vec<TomlValue> = Vec::new();
                let mut i: usize = 0;
                while i < arr.len()
                    invariant
                        i <= arr.len(),
                        reduced.len() == i,
                        forall|j: int| 0 <= j < i ==> (#[trigger] reduced[j])@ == reduce(items[j]),
                    decreases arr.len() - i,
                {
                    assert(items[i as int] == arr[i as int]@);
                    assert(items[i as int].well_formed());
                    reduced.push(arr[i].reduced());
                    i += 1;
                }
                proof {
                    lemma_view_array(reduced);
                    assert(schemas_of(reduced@) =~= reduced_items(items));
                }
                TomlValue::Array(reduced)
            },
            other => other.clone(),
        }
    }
}

} // verus!
