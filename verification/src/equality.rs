//! Equality of schemas, and what holds of it.

use vstd::prelude::*;
use crate::entries::{find_key, has_key, key_index, lemma_key_index, value_of};
use crate::schema::{entries_of, lemma_view_array, lemma_view_table, schemas_of, texts, Schema, TomlValue};

verus! {

/// Every well-formed schema is the same as itself.
pub proof fn lemma_same_reflexive(s: Schema)
    requires
        s.well_formed(),
    ensures
        s.same(s),
    decreases s,
{
    match s {
        Schema::Array(items) => {
            assert forall|i: int| 0 <= i < items.len() implies (#[trigger] items[i]).same(
                items[i],
            ) by {
                lemma_same_reflexive(items[i]);
            }
        },
        Schema::Table(entries) => {
            assert forall|i: int| 0 <= i < entries.len() implies has_key(
                entries,
                (#[trigger] entries[i]).0,
            ) && entries[i].1.same(value_of(entries, entries[i].0)) by {
                lemma_key_index(entries, i);
                lemma_same_reflexive(entries[i].1);
            }
        },
        Schema::TableMap { keys, shared } => {
            lemma_same_reflexive(*shared);
        },
        _ => {},
    }
}

/// Sameness does not depend on the side from which it is seen.
pub proof fn lemma_same_symmetric(a: Schema, b: Schema)
    requires
        a.well_formed(),
        b.well_formed(),
        a.same(b),
    ensures
        b.same(a),
    decreases a,
{
    match (a, b) {
        (Schema::Array(xs), Schema::Array(ys)) => {
            assert forall|i: int| 0 <= i < ys.len() implies (#[trigger] ys[i]).same(xs[i]) by {
                assert(xs[i].same(ys[i]));
                lemma_same_symmetric(xs[i], ys[i]);
            }
        },
        (Schema::Table(xs), Schema::Table(ys)) => {
            assert forall|j: int| 0 <= j < ys.len() implies has_key(xs, (#[trigger] ys[j]).0)
                && ys[j].1.same(value_of(xs, ys[j].0)) by {
                let i = key_index(xs, ys[j].0);
                assert(xs[i].0 == ys[j].0);
                lemma_key_index(ys, j);
                assert(xs[i].1.same(value_of(ys, xs[i].0)));
                lemma_same_symmetric(xs[i].1, ys[j].1);
            }
            assert forall|i: int| 0 <= i < xs.len() implies has_key(ys, (#[trigger] xs[i]).0) by {}
        },
        (Schema::TableMap { keys: lk, shared: ls }, Schema::TableMap { keys: rk, shared: rs }) => {
            lemma_same_symmetric(*ls, *rs);
        },
        _ => {},
    }
}

/// Two schemas that are the same as a third are the same.
pub proof fn lemma_same_transitive(a: Schema, b: Schema, c: Schema)
    requires
        a.well_formed(),
        b.well_formed(),
        c.well_formed(),
        a.same(b),
        b.same(c),
    ensures
        a.same(c),
    decreases a,
{
    match (a, b, c) {
        (Schema::Array(xs), Schema::Array(ys), Schema::Array(zs)) => {
            assert forall|i: int| 0 <= i < xs.len() implies (#[trigger] xs[i]).same(zs[i]) by {
                assert(xs[i].same(ys[i]));
                assert(ys[i].same(zs[i]));
                lemma_same_transitive(xs[i], ys[i], zs[i]);
            }
        },
        (Schema::Table(xs), Schema::Table(ys), Schema::Table(zs)) => {
            assert forall|i: int| 0 <= i < xs.len() implies has_key(zs, (#[trigger] xs[i]).0)
                && xs[i].1.same(value_of(zs, xs[i].0)) by {
                let key = xs[i].0;
                let j = key_index(ys, key);
                assert(ys[j].0 == key);
                lemma_key_index(ys, j);
                assert(has_key(zs, ys[j].0));
                let t = key_index(zs, key);
                assert(zs[t].0 == key);
                assert(xs[i].1.same(ys[j].1));
                assert(ys[j].1.same(zs[t].1));
                lemma_same_transitive(xs[i].1, ys[j].1, zs[t].1);
            }
            assert forall|t: int| 0 <= t < zs.len() implies has_key(xs, (#[trigger] zs[t]).0) by {
                let key = zs[t].0;
                assert(has_key(ys, key));
                let j = key_index(ys, key);
                assert(ys[j].0 == key);
                assert(has_key(xs, ys[j].0));
            }
        },
        (
            Schema::TableMap { keys: ak, shared: a_shared },
            Schema::TableMap { keys: bk, shared: b_shared },
            Schema::TableMap { keys: ck, shared: c_shared },
        ) => {
            lemma_same_transitive(*a_shared, *b_shared, *c_shared);
        },
        _ => {},
    }
}

/// Where every value of a table is the same as the first, any two values
/// are the same.
pub proof fn lemma_all_same_is_pairwise(entries: Seq<(Seq<char>, Schema)>, i: int, j: int)
    requires
        Schema::Table(entries).well_formed(),
        crate::reduce::all_same(entries),
        0 <= i < entries.len(),
        0 <= j < entries.len(),
    ensures
        entries[i].1.same(entries[j].1),
{
    assert(Schema::Table(entries)->Table_0 == entries);
    assert(entries[0].1.well_formed() && entries[i].1.well_formed() && entries[j].1.well_formed());
    assert(entries[0].1.same(entries[i].1));
    assert(entries[0].1.same(entries[j].1));
    lemma_same_symmetric(entries[0].1, entries[i].1);
    lemma_same_transitive(entries[i].1, entries[0].1, entries[j].1);
}

/// Whether two lists of strings hold the same texts in the same order.
pub fn same_strings(left: &Vec<String>, right: &Vec<String>) -> (same: bool)
    ensures
        same == (texts(left@) == texts(right@)),
{
    if left.len() != right.len() {
        assert(texts(left@).len() != texts(right@).len());
        return false;
    }
    let mut i: usize = 0;
    while i < left.len()
        invariant
            i <= left.len(),
            left.len() == right.len(),
            forall|j: int| 0 <= j < i ==> (#[trigger] left[j])@ == right[j]@,
        decreases left.len() - i,
    {
        if left[i] != right[i] {
            assert(texts(left@)[i as int] != texts(right@)[i as int]);
            return false;
        }
        i += 1;
    }
    assert(texts(left@) =~= texts(right@));
    true
}

impl TomlValue {
    /// Whether two schemas are the same, whatever the order of the keys of
    /// their tables.
    #[verifier::loop_isolation(false)]
    pub fn same_as(&self, other: &Self) -> (same: bool)
        requires
            self@.well_formed(),
            other@.well_formed(),
        ensures
            same == self@.same(other@),
        decreases self,
    {
        match (self, other) {
            (TomlValue::String, TomlValue::String) => true,
            (TomlValue::Integer, TomlValue::Integer) => true,
            (TomlValue::Float, TomlValue::Float) => true,
            (TomlValue::Boolean, TomlValue::Boolean) => true,
            (
                TomlValue::Datetime { date: ld, time: lt, offset: lo },
                TomlValue::Datetime { date: rd, time: rt, offset: ro },
            ) => *ld == *rd && *lt == *rt && *lo == *ro,
            (TomlValue::Array(left), TomlValue::Array(right)) => {
                let ghost xs = schemas_of(left@);
                let ghost ys = schemas_of(right@);
                proof {
                    lemma_view_array(*left);
                    lemma_view_array(*right);
                }
                if left.len() != right.len() {
                    return false;
                }
                assert(Schema::Array(xs).well_formed());
                assert(Schema::Array(ys).well_formed());
                assert(forall|j: int| 0 <= j < ys.len() ==> (#[trigger] ys[j]).well_formed());
                assert(forall|j: int| 0 <= j < xs.len() ==> (#[trigger] xs[j]).well_formed());
                let mut i: usize = 0;
                while i < left.len()
                    invariant
                        i <= left.len(),
                        left.len() == right.len(),
                        forall|j: int| 0 <= j < i ==> (#[trigger] xs[j]).same(ys[j]),
                    decreases left.len() - i,
                {
                    assert(xs[i as int] == left[i as int]@ && ys[i as int] == right[i as int]@);
                    assert(xs[i as int].well_formed() && ys[i as int].well_formed());
                    if !left[i].same_as(&right[i]) {
                        return false;
                    }
                    i += 1;
                }
                true
            },
            (TomlValue::Table(left), TomlValue::Table(right)) => {
                let ghost xs = entries_of(left@);
                let ghost ys = entries_of(right@);
                proof {
                    lemma_view_table(*left);
                    lemma_view_table(*right);
                }
                let mut i: usize = 0;
                while i < left.len()
                    invariant
                        i <= left.len(),
                        forall|j: int|
                            0 <= j < i ==> has_key(ys, (#[trigger] xs[j]).0) && xs[j].1.same(
                                value_of(ys, xs[j].0),
                            ),
                    decreases left.len() - i,
                {
                    assert(xs[i as int] == (left[i as int].0@, left[i as int].1@));
                    assert(xs[i as int].1.well_formed());
                    match find_key(right, &left[i].0) {
                        None => {
                            proof {
                                if has_key(ys, xs[i as int].0) {
                                    let t = key_index(ys, xs[i as int].0);
                                    assert(ys[t].0 == right[t].0@);
                                }
                            }
                            return false;
                        },
                        Some(at) => {
                            assert(ys[at as int] == (right[at as int].0@, right[at as int].1@));
                            assert(ys[at as int].1.well_formed());
                            proof {
                                lemma_key_index(ys, at as int);
                            }
                            if !left[i].1.same_as(&right[at].1) {
                                return false;
                            }
                        },
                    }
                    i += 1;
                }
                let mut j: usize = 0;
                while j < right.len()
                    invariant
                        j <= right.len(),
                        forall|t: int| 0 <= t < j ==> has_key(xs, (#[trigger] ys[t]).0),
                    decreases right.len() - j,
                {
                    assert(ys[j as int] == (right[j as int].0@, right[j as int].1@));
                    match find_key(left, &right[j].0) {
                        None => {
                            proof {
                                if has_key(xs, ys[j as int].0) {
                                    let t = key_index(xs, ys[j as int].0);
                                    assert(xs[t].0 == left[t].0@);
                                }
                            }
                            return false;
                        },
                        Some(at) => {
                            assert(xs[at as int] == (left[at as int].0@, left[at as int].1@));
                        },
                    }
                    j += 1;
                }
                true
            },
            (
                TomlValue::TableMap { keys: lk, value_type: lt },
                TomlValue::TableMap { keys: rk, value_type: rt },
            ) => same_strings(lk, rk) && lt.same_as(rt),
            _ => false,
        }
    }
}

} // verus!
