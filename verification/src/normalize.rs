//! Normalization: every array is given a single element schema, the union
//! of the schemas of its elements.

use vstd::prelude::*;
use crate::entries::{
    find_key, fresh_from, has_key, key_index, lemma_key_index, lemma_overlay_all,
    lemma_overlay_entries, lemma_overlay_hit, lemma_overlay_lookup, lemma_overlay_miss,
    lemma_overlay_none, only_in, overlay, overlay_prefix, value_of,
};
use crate::equality::lemma_same_reflexive;
use crate::schema::{
    clone_entries, entries_of, lemma_view_array, lemma_view_table, schemas_of, texts, Schema,
    TomlValue,
};

verus! {

/// Two schemas that cannot be unified, and the keys that lead to them,
/// innermost key first.
pub struct Mismatch {
    pub path: Seq<Seq<char>>,
    pub types: (Schema, Schema),
}

impl Mismatch {
    /// The same mismatch seen from one table further out, under `key`.
    pub open spec fn pushed(self, key: Seq<char>) -> Mismatch {
        Mismatch { path: self.path.push(key), types: self.types }
    }
}

/// Why a schema cannot be normalized.
#[derive(Debug)]
pub enum NormalizationError {
    /// A mismatch in value types.
    ValueMismatch {
        /// Reverse key path leading to the mismatch
        path: Vec<String>,
        /// Conflicting value types
        value_types: Box<(TomlValue, TomlValue)>,
    },
}

impl View for NormalizationError {
    type V = Mismatch;

    open spec fn view(&self) -> Mismatch {
        match self {
            NormalizationError::ValueMismatch { path, value_types } => Mismatch {
                path: texts(path@),
                types: (value_types.0@, value_types.1@),
            },
        }
    }
}

impl NormalizationError {
    /// Adds the key of the enclosing table to the path of the error.
    pub fn propagate(self, key: &str) -> (outer: NormalizationError)
        ensures
            outer@ == self@.pushed(key@),
    {
        match self {
            NormalizationError::ValueMismatch { path, value_types } => {
                let mut path = path;
                let ghost before = path@;
                path.push(key.to_owned());
                assert(texts(path@) =~= texts(before).push(key@));
                NormalizationError::ValueMismatch { path, value_types }
            },
        }
    }
}

/// What a result of normalization stands for.
pub open spec fn outcome(res: Result<TomlValue, NormalizationError>) -> Result<Schema, Mismatch> {
    match res {
        Ok(v) => Ok(v@),
        Err(e) => Err(e@),
    }
}

/// The shape that a datetime with the given components is promoted to: with
/// an offset it is a full offset date-time, otherwise it is left as it is.
pub open spec fn resolved_datetime(date: bool, time: bool, offset: bool) -> Schema {
    if offset {
        Schema::Datetime { date: true, time: true, offset: true }
    } else {
        Schema::Datetime { date, time, offset: false }
    }
}

/// The union of two schemas: the schema that admits what either admits.
///
/// Equal scalars unify to themselves and datetimes component by component.
/// Arrays, each with at most one element schema, unify to the array of the
/// union of these, an empty array yielding to the other.  Tables unify key by
/// key; the first common key of the second table at which the values do not
/// unify gives the mismatch, with that key added to its path.
pub open spec fn union(a: Schema, b: Schema) -> Result<Schema, Mismatch>
    decreases a, 0nat,
{
    match (a, b) {
        (Schema::Str, Schema::Str) => Ok(Schema::Str),
        (Schema::Int, Schema::Int) => Ok(Schema::Int),
        (Schema::Float, Schema::Float) => Ok(Schema::Float),
        (Schema::Bool, Schema::Bool) => Ok(Schema::Bool),
        (
            Schema::Datetime { date: ld, time: lt, offset: lo },
            Schema::Datetime { date: rd, time: rt, offset: ro },
        ) => Ok(Schema::Datetime { date: ld || rd, time: lt || rt, offset: lo || ro }),
        (Schema::Array(xs), Schema::Array(ys)) => {
            if xs.len() == 0 && ys.len() == 0 {
                Ok(Schema::Array(Seq::empty()))
            } else if ys.len() == 0 {
                Ok(Schema::Array(seq![xs[0]]))
            } else if xs.len() == 0 {
                Ok(Schema::Array(seq![ys[0]]))
            } else {
                match union(xs[0], ys[0]) {
                    Ok(u) => Ok(Schema::Array(seq![u])),
                    Err(e) => Err(e),
                }
            }
        },
        (Schema::Table(xs), Schema::Table(ys)) => {
            match first_conflict(xs, ys, 0) {
                Some(e) => Err(e),
                None => Ok(Schema::Table(joined(xs, ys))),
            }
        },
        _ => Err(Mismatch { path: Seq::empty(), types: (a, b) }),
    }
}

/// The mismatch at the first entry of `ys`, from index `from` on, whose key
/// occurs in `xs` with a value that does not unify with it.
pub open spec fn first_conflict(
    xs: Seq<(Seq<char>, Schema)>,
    ys: Seq<(Seq<char>, Schema)>,
    from: nat,
) -> Option<Mismatch>
    decreases xs, ys.len() - from,
{
    if from >= ys.len() {
        None
    } else if has_key(xs, ys[from as int].0) {
        match union(value_of(xs, ys[from as int].0), ys[from as int].1) {
            Err(e) => Some(e.pushed(ys[from as int].0)),
            Ok(_) => first_conflict(xs, ys, from + 1),
        }
    } else {
        first_conflict(xs, ys, from + 1)
    }
}

/// The entries of `xs`, each unified with the entry of `ys` of the same key
/// where there is one, followed by the entries that only `ys` has.
pub open spec fn joined(xs: Seq<(Seq<char>, Schema)>, ys: Seq<(Seq<char>, Schema)>) -> Seq<
    (Seq<char>, Schema),
>
    decreases xs, 0nat,
{
    Seq::new(
        xs.len(),
        |i: int|
            if 0 <= i < xs.len() && has_key(ys, xs[i].0) {
                (
                    xs[i].0,
                    match union(xs[i].1, value_of(ys, xs[i].0)) {
                        Ok(u) => u,
                        Err(_) => xs[i].1,
                    },
                )
            } else {
                xs[i]
            },
    ) + only_in(ys, xs)
}

/// The normalized form of a schema.
///
/// A datetime is promoted to its resolved shape.  A non-empty array becomes the
/// array of one schema, the union of the normalized forms of its elements
/// taken from left to right.  A table keeps its keys in their order and has
/// each value normalized; a failure under a key has that key added to its
/// path.  The first failure met, in document order, is the result.
pub open spec fn normalize(s: Schema) -> Result<Schema, Mismatch>
    decreases s, 0nat,
{
    match s {
        Schema::Datetime { date, time, offset } => Ok(resolved_datetime(date, time, offset)),
        Schema::Array(items) => {
            if items.len() == 0 {
                Ok(Schema::Array(Seq::empty()))
            } else {
                match normalize(items[0]) {
                    Err(e) => Err(e),
                    Ok(first) => match unify_from(first, items, 1) {
                        Err(e) => Err(e),
                        Ok(u) => Ok(Schema::Array(seq![u])),
                    },
                }
            }
        },
        Schema::Table(entries) => {
            match first_failure(entries, 0) {
                Some(e) => Err(e),
                None => Ok(Schema::Table(normalized_entries(entries))),
            }
        },
        other => Ok(other),
    }
}

/// The union of `acc` with the normalized forms of the items from index
/// `from` on, taken from left to right.
pub open spec fn unify_from(acc: Schema, items: Seq<Schema>, from: nat) -> Result<Schema, Mismatch>
    decreases items, items.len() - from,
{
    if from >= items.len() {
        Ok(acc)
    } else {
        match normalize(items[from as int]) {
            Err(e) => Err(e),
            Ok(x) => match union(acc, x) {
                Err(e) => Err(e),
                Ok(u) => unify_from(u, items, from + 1),
            },
        }
    }
}

/// The failure of the first entry, from index `from` on, whose value does not
/// normalize, with the entry's key added to its path.
pub open spec fn first_failure(entries: Seq<(Seq<char>, Schema)>, from: nat) -> Option<Mismatch>
    decreases entries, entries.len() - from,
{
    if from >= entries.len() {
        None
    } else {
        match normalize(entries[from as int].1) {
            Err(e) => Some(e.pushed(entries[from as int].0)),
            Ok(_) => first_failure(entries, from + 1),
        }
    }
}

/// The entries with each value normalized.
pub open spec fn normalized_entries(entries: Seq<(Seq<char>, Schema)>) -> Seq<(Seq<char>, Schema)>
    decreases entries, 0nat,
{
    Seq::new(
        entries.len(),
        |i: int|
            if 0 <= i < entries.len() {
                (
                    entries[i].0,
                    match normalize(entries[i].1) {
                        Ok(v) => v,
                        Err(_) => entries[i].1,
                    },
                )
            } else {
                entries[i]
            },
    )
}

/// Without a conflict from `from` on, every later entry of `ys` whose key
/// occurs in `xs` unifies with the value there.
pub proof fn lemma_no_conflict(
    xs: Seq<(Seq<char>, Schema)>,
    ys: Seq<(Seq<char>, Schema)>,
    from: nat,
)
    requires
        first_conflict(xs, ys, from) is None,
    ensures
        forall|j: int|
            from <= j < ys.len() && has_key(xs, (#[trigger] ys[j]).0) ==> union(
                value_of(xs, ys[j].0),
                ys[j].1,
            ) is Ok,
    decreases ys.len() - from,
{
    if from < ys.len() {
        lemma_no_conflict(xs, ys, from + 1);
    }
}

/// Without a failure from `from` on, every later entry normalizes.
pub proof fn lemma_no_failure(entries: Seq<(Seq<char>, Schema)>, from: nat)
    requires
        first_failure(entries, from) is None,
    ensures
        forall|j: int| from <= j < entries.len() ==> normalize((#[trigger] entries[j]).1) is Ok,
    decreases entries.len() - from,
{
    if from < entries.len() {
        lemma_no_failure(entries, from + 1);
    }
}

/// The union of two schemas keeps what normalization has established:
/// unique keys, unified arrays, and, where both have them, the absence of
/// table maps and resolved datetimes.
pub proof fn lemma_union_preserves(a: Schema, b: Schema)
    requires
        a.well_formed(),
        b.well_formed(),
        a.arrays_unified(),
        b.arrays_unified(),
        union(a, b) is Ok,
    ensures
        union(a, b)->Ok_0.well_formed(),
        union(a, b)->Ok_0.arrays_unified(),
        a.is_plain() && b.is_plain() ==> union(a, b)->Ok_0.is_plain(),
        a.datetimes_resolved() && b.datetimes_resolved() ==> union(a, b)->Ok_0.datetimes_resolved(),
    decreases a,
{
    match (a, b) {
        (Schema::Array(xs), Schema::Array(ys)) => {
            if xs.len() > 0 && ys.len() > 0 {
                lemma_union_preserves(xs[0], ys[0]);
            }
        },
        (Schema::Table(xs), Schema::Table(ys)) => {
            let all = joined(xs, ys);
            lemma_joined_is_overlay(xs, ys);
            lemma_overlay_entries(xs, ys, unify_values(), keep_value());
            lemma_no_conflict(xs, ys, 0);
            assert forall|i: int| 0 <= i < all.len() implies {
                &&& (#[trigger] all[i]).1.well_formed()
                &&& all[i].1.arrays_unified()
                &&& (a.is_plain() && b.is_plain() ==> all[i].1.is_plain())
                &&& (a.datetimes_resolved() && b.datetimes_resolved()
                    ==> all[i].1.datetimes_resolved())
            } by {
                if i < xs.len() {
                    if has_key(ys, xs[i].0) {
                        let t = key_index(ys, xs[i].0);
                        assert(ys[t].0 == xs[i].0);
                        lemma_key_index(xs, i);
                        assert(has_key(xs, ys[t].0));
                        assert(union(xs[i].1, ys[t].1) is Ok);
                        lemma_union_preserves(xs[i].1, ys[t].1);
                    }
                } else {
                    assert(fresh_from(all[i], ys, keep_value()));
                    let t = choose|t: int|
                        0 <= t < ys.len() && all[i] == ((#[trigger] ys[t]).0, keep_value()(ys[t].1));
                    assert(ys[t].1.well_formed());
                }
            }
        },
        _ => {},
    }
}

/// After normalization every array holds at most one element schema, every
/// datetime has a resolved shape, and the keys of every table are still
/// unique.
pub proof fn lemma_normalize_gives_normal_form(s: Schema)
    requires
        s.well_formed(),
        s.is_plain(),
        s.datetimes_present(),
        normalize(s) is Ok,
    ensures
        normalize(s)->Ok_0.is_normalized(),
    decreases s, 0nat,
{
    match s {
        Schema::Array(items) => {
            if items.len() > 0 {
                lemma_normalize_gives_normal_form(items[0]);
                lemma_unify_from_gives_normal_form(normalize(items[0])->Ok_0, items, 1);
            }
        },
        Schema::Table(entries) => {
            let all = normalized_entries(entries);
            lemma_no_failure(entries, 0);
            assert forall|i: int| 0 <= i < all.len() implies (#[trigger] all[i]).1.is_normalized() by {
                assert(entries[i].1.well_formed());
                lemma_normalize_gives_normal_form(entries[i].1);
            }
            assert forall|i: int, j: int| 0 <= i < j < all.len() implies (#[trigger] all[i]).0 != (
            #[trigger] all[j]).0 by {
                assert(entries[i].0 != entries[j].0);
            }
        },
        _ => {},
    }
}

/// Folding normalized items into a normalized accumulator gives a
/// normalized schema.
pub proof fn lemma_unify_from_gives_normal_form(acc: Schema, items: Seq<Schema>, from: nat)
    requires
        acc.is_normalized(),
        forall|i: int|
            0 <= i < items.len() ==> (#[trigger] items[i]).well_formed() && items[i].is_plain()
                && items[i].datetimes_present(),
        unify_from(acc, items, from) is Ok,
    ensures
        unify_from(acc, items, from)->Ok_0.is_normalized(),
    decreases items, items.len() - from,
{
    if from < items.len() {
        let x = normalize(items[from as int])->Ok_0;
        lemma_normalize_gives_normal_form(items[from as int]);
        lemma_union_preserves(acc, x);
        lemma_unify_from_gives_normal_form(union(acc, x)->Ok_0, items, from + 1);
    }
}

/// The union of a schema with itself is the schema: unifying an array with
/// an empty array gives what unifying it with itself would give.
pub proof fn lemma_union_idempotent(a: Schema)
    requires
        a.well_formed(),
        a.is_plain(),
        a.arrays_unified(),
    ensures
        union(a, a) == Ok::<Schema, Mismatch>(a),
    decreases a,
{
    match a {
        Schema::Array(xs) => {
            if xs.len() > 0 {
                lemma_union_idempotent(xs[0]);
                assert(seq![xs[0]] =~= xs);
            } else {
                assert(xs =~= Seq::empty());
            }
        },
        Schema::Table(xs) => {
            assert forall|i: int| 0 <= i < xs.len() implies has_key(xs, (#[trigger] xs[i]).0)
                && union(value_of(xs, xs[i].0), xs[i].1) == Ok::<Schema, Mismatch>(xs[i].1) by {
                lemma_key_index(xs, i);
                lemma_union_idempotent(xs[i].1);
            }
            lemma_conflict_free(xs, xs, 0);
            lemma_joined_is_overlay(xs, xs);
            lemma_overlay_entries(xs, xs, unify_values(), keep_value());
            let all = joined(xs, xs);
            if all.len() > xs.len() {
                assert(!has_key(xs, all[xs.len() as int].0));
                assert(fresh_from(all[xs.len() as int], xs, keep_value()));
            }
            assert(all =~= xs);
        },
        _ => {},
    }
}

/// Where every entry of `ys` from `from` on whose key occurs in `xs` unifies
/// with the value there, there is no conflict from `from` on.
pub proof fn lemma_conflict_free(
    xs: Seq<(Seq<char>, Schema)>,
    ys: Seq<(Seq<char>, Schema)>,
    from: nat,
)
    requires
        forall|j: int|
            from <= j < ys.len() && has_key(xs, (#[trigger] ys[j]).0) ==> union(
                value_of(xs, ys[j].0),
                ys[j].1,
            ) is Ok,
    ensures
        first_conflict(xs, ys, from) is None,
    decreases ys.len() - from,
{
    if from < ys.len() {
        assert(has_key(xs, ys[from as int].0) ==> union(
            value_of(xs, ys[from as int].0),
            ys[from as int].1,
        ) is Ok);
        lemma_conflict_free(xs, ys, from + 1);
    }
}

/// Union commutes: where the union of `a` with `b` exists, so does the union
/// of `b` with `a`, and the two are the same schema.
pub proof fn lemma_union_commutes(a: Schema, b: Schema)
    requires
        a.well_formed(),
        b.well_formed(),
        union(a, b) is Ok,
    ensures
        union(b, a) is Ok,
        union(a, b)->Ok_0.same(union(b, a)->Ok_0),
    decreases a,
{
    match (a, b) {
        (Schema::Array(xs), Schema::Array(ys)) => {
            if xs.len() > 0 && ys.len() > 0 {
                lemma_union_commutes(xs[0], ys[0]);
                let l = union(xs[0], ys[0])->Ok_0;
                let r = union(ys[0], xs[0])->Ok_0;
                assert(seq![l][0] == l && seq![r][0] == r);
            } else if xs.len() > 0 {
                lemma_same_reflexive(xs[0]);
                assert(seq![xs[0]][0] == xs[0]);
            } else if ys.len() > 0 {
                lemma_same_reflexive(ys[0]);
                assert(seq![ys[0]][0] == ys[0]);
            }
        },
        (Schema::Table(xs), Schema::Table(ys)) => {
            lemma_no_conflict(xs, ys, 0);
            assert forall|i: int| 0 <= i < xs.len() && has_key(ys, (#[trigger] xs[i]).0) implies {
                &&& union(xs[i].1, value_of(ys, xs[i].0)) is Ok
                &&& union(value_of(ys, xs[i].0), xs[i].1) is Ok
                &&& union(xs[i].1, value_of(ys, xs[i].0))->Ok_0.same(
                    union(value_of(ys, xs[i].0), xs[i].1)->Ok_0,
                )
            } by {
                let t = key_index(ys, xs[i].0);
                assert(ys[t].0 == xs[i].0);
                lemma_key_index(xs, i);
                assert(has_key(xs, ys[t].0));
                lemma_key_index(ys, t);
                assert(ys[t].1.well_formed());
                lemma_union_commutes(xs[i].1, ys[t].1);
            }
            lemma_conflict_free(ys, xs, 0);
            let left = joined(xs, ys);
            let right = joined(ys, xs);
            lemma_joined_is_overlay(xs, ys);
            lemma_joined_is_overlay(ys, xs);
            lemma_overlay_entries(xs, ys, unify_values(), keep_value());
            lemma_overlay_entries(ys, xs, unify_values(), keep_value());
            assert forall|i: int| 0 <= i < left.len() implies has_key(right, (#[trigger] left[i]).0)
                && left[i].1.same(value_of(right, left[i].0)) by {
                let key = left[i].0;
                lemma_key_index(left, i);
                lemma_overlay_lookup(xs, ys, unify_values(), keep_value(), key);
                lemma_overlay_lookup(ys, xs, unify_values(), keep_value(), key);
                if has_key(xs, key) {
                    let at = key_index(xs, key);
                    assert(xs[at].0 == key);
                    lemma_key_index(xs, at);
                    if !has_key(ys, key) {
                        lemma_same_reflexive(xs[at].1);
                    }
                } else {
                    let at = key_index(ys, key);
                    assert(ys[at].0 == key);
                    lemma_key_index(ys, at);
                    lemma_same_reflexive(ys[at].1);
                }
            }
            assert forall|j: int| 0 <= j < right.len() implies has_key(left, (#[trigger] right[j]).0) by {
                let key = right[j].0;
                lemma_key_index(right, j);
                lemma_overlay_lookup(xs, ys, unify_values(), keep_value(), key);
                lemma_overlay_lookup(ys, xs, unify_values(), keep_value(), key);
            }
        },
        _ => {},
    }
}

/// The offset date-time shape.
pub open spec fn offset_date_time() -> Schema {
    Schema::Datetime { date: true, time: true, offset: true }
}

/// A datetime with an offset normalizes to the offset date-time shape, and
/// the union of that shape with any resolved datetime is that shape again.
pub proof fn lemma_offset_is_promoted(date: bool, time: bool, other: Schema)
    requires
        other is Datetime,
        other.datetimes_resolved(),
    ensures
        normalize(Schema::Datetime { date, time, offset: true }) == Ok::<Schema, Mismatch>(
            offset_date_time(),
        ),
        union(offset_date_time(), other) == Ok::<Schema, Mismatch>(offset_date_time()),
        union(other, offset_date_time()) == Ok::<Schema, Mismatch>(offset_date_time()),
{
}

/// Folding datetimes into a datetime gives the offset date-time shape where
/// the accumulator or one of the datetimes still to come has an offset.
pub proof fn lemma_unify_datetimes(acc: Schema, items: Seq<Schema>, from: nat)
    requires
        acc is Datetime,
        acc.datetimes_resolved(),
        forall|i: int|
            0 <= i < items.len() ==> (#[trigger] items[i]) is Datetime && items[i].datetimes_present(),
    ensures
        unify_from(acc, items, from) is Ok,
        unify_from(acc, items, from)->Ok_0 is Datetime,
        unify_from(acc, items, from)->Ok_0.datetimes_resolved(),
        acc->offset ==> unify_from(acc, items, from)->Ok_0 == offset_date_time(),
        forall|i: int|
            from <= i < items.len() && (#[trigger] items[i])->offset ==> unify_from(
                acc,
                items,
                from,
            )->Ok_0 == offset_date_time(),
    decreases items.len() - from,
{
    if from < items.len() {
        let item = items[from as int];
        assert(item is Datetime && item.datetimes_present());
        let x = normalize(item)->Ok_0;
        let u = union(acc, x)->Ok_0;
        lemma_unify_datetimes(u, items, from + 1);
    }
}

/// Datetime promotion: an array of datetimes one of which has an offset
/// normalizes to the array of the offset date-time shape, whatever the
/// others are.
pub proof fn lemma_datetime_promotion(items: Seq<Schema>, with_offset: int)
    requires
        forall|i: int|
            0 <= i < items.len() ==> (#[trigger] items[i]) is Datetime && items[i].datetimes_present(),
        0 <= with_offset < items.len(),
        items[with_offset]->offset,
    ensures
        normalize(Schema::Array(items)) == Ok::<Schema, Mismatch>(
            Schema::Array(seq![offset_date_time()]),
        ),
{
    assert(items[0] is Datetime && items[0].datetimes_present());
    let first = normalize(items[0])->Ok_0;
    lemma_unify_datetimes(first, items, 1);
    if with_offset == 0 {
        assert(first->offset);
    }
}

/// The union of two values where there is one, else the first value.
pub open spec fn union_or_left(x: Schema, y: Schema) -> Schema {
    match union(x, y) {
        Ok(u) => u,
        Err(_) => x,
    }
}

/// The function that leaves a value as it is.
pub open spec fn keep_value() -> spec_fn(Schema) -> Schema {
    |y: Schema| y
}

/// `union_or_left` as a function value.
pub open spec fn unify_values() -> spec_fn(Schema, Schema) -> Schema {
    |x: Schema, y: Schema| union_or_left(x, y)
}

/// The key-wise union of two tables is the overlay of the second on the first.
pub proof fn lemma_joined_is_overlay(xs: Seq<(Seq<char>, Schema)>, ys: Seq<(Seq<char>, Schema)>)
    ensures
        joined(xs, ys) == overlay(xs, ys, unify_values(), keep_value()),
{
    assert(joined(xs, ys) =~= overlay(xs, ys, unify_values(), keep_value()));
}

impl TomlValue {
    /// The shape that a datetime with the given components is promoted to.
    pub fn resolve_date_time_offset(date: bool, time: bool, offset: bool) -> (shape: TomlValue)
        requires
            date || time || offset,
        ensures
            shape@ == resolved_datetime(date, time, offset),
    {
        if offset {
            TomlValue::Datetime { date: true, time: true, offset: true }
        } else {
            TomlValue::Datetime { date, time, offset: false }
        }
    }

    /// Derives the normalized form of the schema of a document.
    pub fn normalize(self) -> (res: Result<Self, NormalizationError>)
        requires
            self@.well_formed(),
            self@.is_plain(),
            self@.datetimes_present(),
        ensures
            outcome(res) == normalize(self@),
            res matches Ok(v) ==> v@.is_normalized(),
    {
        let res = self.normalized();
        proof {
            if res is Ok {
                lemma_normalize_gives_normal_form(self@);
            }
        }
        res
    }

    /// The normalized form of `self`, which is left as it is.
    #[verifier::loop_isolation(false)]
    pub fn normalized(&self) -> (res: Result<Self, NormalizationError>)
        requires
            self@.well_formed(),
            self@.is_plain(),
            self@.datetimes_present(),
        ensures
            outcome(res) == normalize(self@),
        decreases self,
    {
        match self {
            TomlValue::Array(toml_values) => {
                let ghost items = schemas_of(toml_values@);
                proof {
                    lemma_view_array(*toml_values);
                }
                if toml_values.len() == 0 {
                    let empty: Vec<TomlValue> = Vec::new();
                    proof {
                        lemma_view_array(empty);
                        assert(schemas_of(empty@) =~= Seq::empty());
                    }
                    return Ok(TomlValue::Array(empty));
                }
                assert(forall|i: int| 0 <= i < items.len() ==> #[trigger] items[i] == toml_values[i]@);
                assert(items[0].well_formed());
                let mut acc = match toml_values[0].normalized() {
                    Ok(first) => first,
                    Err(e) => {
                        return Err(e);
                    },
                };
                proof {
                    lemma_normalize_gives_normal_form(items[0]);
                }
                let mut i: usize = 1;
                while i < toml_values.len()
                    invariant
                        1 <= i <= toml_values.len(),
                        acc@.is_normalized(),
                        normalize(items[0]) is Ok,
                        unify_from(acc@, items, i as nat) == unify_from(
                            normalize(items[0])->Ok_0,
                            items,
                            1,
                        ),
                    decreases toml_values.len() - i,
                {
                    assert(items[i as int].well_formed());
                    let inter = match toml_values[i].normalized() {
                        Ok(inter) => inter,
                        Err(e) => {
                            return Err(e);
                        },
                    };
                    proof {
                        lemma_normalize_gives_normal_form(items[i as int]);
                    }
                    let unified = match acc.union(&inter) {
                        Ok(unified) => unified,
                        Err(e) => {
                            return Err(e);
                        },
                    };
                    proof {
                        lemma_union_preserves(acc@, inter@);
                    }
                    acc = unified;
                    i += 1;
                }
                let single = vec![acc];
                proof {
                    lemma_view_array(single);
                    assert(schemas_of(single@) =~= seq![acc@]);
                }
                Ok(TomlValue::Array(single))
            },
            TomlValue::Table(toml_table) => {
                let ghost entries = entries_of(toml_table@);
                proof {
                    lemma_view_table(*toml_table);
                }
                let mut norm_table: Vec<(String, TomlValue)> = Vec::new();
                let mut i: usize = 0;
                while i < toml_table.len()
                    invariant
                        i <= toml_table.len(),
                        norm_table.len() == i,
                        first_failure(entries, i as nat) == first_failure(entries, 0),
                        forall|j: int|
                            0 <= j < i ==> (#[trigger] norm_table[j]).0@ == entries[j].0 && Ok::<
                                Schema,
                                Mismatch,
                            >(norm_table[j].1@) == normalize(entries[j].1),
                    decreases toml_table.len() - i,
                {
                    assert(entries[i as int] == (toml_table[i as int].0@, toml_table[i as int].1@));
                    assert(entries[i as int].1.well_formed());
                    match toml_table[i].1.normalized() {
                        Ok(nv) => {
                            norm_table.push((toml_table[i].0.clone(), nv));
                        },
                        Err(e) => {
                            return Err(e.propagate(toml_table[i].0.as_str()));
                        },
                    }
                    i += 1;
                }
                proof {
                    lemma_view_table(norm_table);
                    assert(entries_of(norm_table@) =~= normalized_entries(entries));
                }
                Ok(TomlValue::Table(norm_table))
            },
            TomlValue::Datetime { date, time, offset } => Ok(
                Self::resolve_date_time_offset(*date, *time, *offset),
            ),
            other => Ok(other.clone()),
        }
    }

    /// Calculates the union of two schemas that have not been reduced and
    /// whose arrays have been unified.
    #[verifier::loop_isolation(false)]
    pub fn union(&self, other: &Self) -> (res: Result<TomlValue, NormalizationError>)
        requires
            self@.well_formed(),
            other@.well_formed(),
            self@.is_plain(),
            other@.is_plain(),
            self@.arrays_unified(),
            other@.arrays_unified(),
        ensures
            outcome(res) == union(self@, other@),
        decreases self,
    {
        match (self, other) {
            (TomlValue::String, TomlValue::String) => Ok(TomlValue::String),
            (TomlValue::Integer, TomlValue::Integer) => Ok(TomlValue::Integer),
            (TomlValue::Float, TomlValue::Float) => Ok(TomlValue::Float),
            (TomlValue::Boolean, TomlValue::Boolean) => Ok(TomlValue::Boolean),
            (
                TomlValue::Datetime { date: ld, time: lt, offset: lo },
                TomlValue::Datetime { date: rd, time: rt, offset: ro },
            ) => Ok(
                TomlValue::Datetime { date: *ld || *rd, time: *lt || *rt, offset: *lo || *ro },
            ),
            (TomlValue::Array(arr_self), TomlValue::Array(arr_other)) => {
                proof {
                    lemma_view_array(*arr_self);
                    lemma_view_array(*arr_other);
                }
                let unified: Vec<TomlValue> = if arr_self.len() == 0 && arr_other.len() == 0 {
                    Vec::new()
                } else if arr_other.len() == 0 {
                    vec![arr_self[0].clone()]
                } else if arr_self.len() == 0 {
                    vec![arr_other[0].clone()]
                } else {
                    assert(schemas_of(arr_self@)[0] == arr_self[0]@);
                    assert(schemas_of(arr_other@)[0] == arr_other[0]@);
                    assert(schemas_of(arr_self@)[0].is_plain());
                    assert(schemas_of(arr_other@)[0].is_plain());
                    match arr_self[0].union(&arr_other[0]) {
                        Ok(u) => vec![u],
                        Err(e) => {
                            return Err(e);
                        },
                    }
                };
                proof {
                    lemma_view_array(unified);
                    assert(schemas_of(unified@) =~= union(self@, other@)->Ok_0->Array_0);
                }
                Ok(TomlValue::Array(unified))
            },
            (TomlValue::Table(tab_self), TomlValue::Table(tab_other)) => {
                let ghost xs = entries_of(tab_self@);
                let ghost ys = entries_of(tab_other@);
                proof {
                    lemma_view_table(*tab_self);
                    lemma_view_table(*tab_other);
                    lemma_overlay_none(xs, ys, unify_values(), keep_value());
                }
                let mut merged = clone_entries(tab_self);
                let mut j: usize = 0;
                while j < tab_other.len()
                    invariant
                        j <= tab_other.len(),
                        entries_of(merged@) == overlay_prefix(xs, ys, j as int, unify_values(), keep_value()),
                        first_conflict(xs, ys, j as nat) == first_conflict(xs, ys, 0),
                    decreases tab_other.len() - j,
                {
                    let key = &tab_other[j].0;
                    let value = &tab_other[j].1;
                    let ghost before = entries_of(merged@);
                    assert(ys[j as int] == (key@, value@));
                    match find_key(tab_self, key) {
                        Some(at) => {
                            assert(xs[at as int] == (tab_self[at as int].0@, tab_self[at as int].1@));
                            assert(xs[at as int].1.is_plain() && ys[j as int].1.is_plain());
                            proof {
                                lemma_key_index(xs, at as int);
                                lemma_overlay_hit(xs, ys, j as int, at as int, unify_values(), keep_value());
                            }
                            match tab_self[at].1.union(value) {
                                Ok(u) => {
                                    merged[at] = (tab_self[at].0.clone(), u);
                                    assert(entries_of(merged@) =~= before.update(
                                        at as int,
                                        (xs[at as int].0, u@),
                                    ));
                                },
                                Err(e) => {
                                    return Err(e.propagate(key.as_str()));
                                },
                            }
                        },
                        None => {
                            proof {
                                assert(!has_key(xs, ys[j as int].0)) by {
                                    if has_key(xs, ys[j as int].0) {
                                        let t = key_index(xs, ys[j as int].0);
                                        assert(xs[t].0 == tab_self[t].0@);
                                    }
                                }
                                lemma_overlay_miss(xs, ys, j as int, unify_values(), keep_value());
                            }
                            merged.push((key.clone(), value.clone()));
                            assert(entries_of(merged@) =~= before.push(ys[j as int]));
                        },
                    }
                    j += 1;
                }
                proof {
                    lemma_overlay_all(xs, ys, unify_values(), keep_value());
                    lemma_joined_is_overlay(xs, ys);
                    lemma_view_table(merged);
                }
                Ok(TomlValue::Table(merged))
            },
            _ => {
                let path: Vec<String> = Vec::new();
                assert(texts(path@) =~= Seq::empty());
                Err(
                    NormalizationError::ValueMismatch {
                        path,
                        value_types: Box::new((self.clone(), other.clone())),
                    },
                )
            },
        }
    }
}

} // verus!
