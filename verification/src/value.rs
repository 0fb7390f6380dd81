//! The parsed document: strings, numbers, datetimes, arrays and tables.

use vstd::prelude::*;
use crate::entries::{find_key, has_key, key_index, lemma_key_index, unique_keys, value_of};

verus! {

/// A calendar date.
#[derive(Clone, Copy, Debug, PartialEq, Eq, Structural)]
pub struct Date {
    pub year: u16,
    pub month: u8,
    pub day: u8,
}

/// A time of day.
#[derive(Clone, Copy, Debug, PartialEq, Eq, Structural)]
pub struct Time {
    pub hour: u8,
    pub minute: u8,
    pub second: u8,
    pub nanosecond: u32,
}

/// An offset from UTC.
#[derive(Clone, Copy, Debug, PartialEq, Eq, Structural)]
pub enum Offset {
    /// UTC itself
    Z,
    /// A number of minutes east of UTC
    Custom { minutes: i16 },
}

/// A datetime, each of whose three components may be absent.
#[derive(Clone, Copy, Debug, PartialEq, Eq, Structural)]
pub struct Datetime {
    pub date: Option<Date>,
    pub time: Option<Time>,
    pub offset: Option<Offset>,
}

impl Datetime {
    /// The datetime of the given components: a date as year, month and day,
    /// a time as hour, minute, second and nanosecond, and an offset as its
    /// minutes, or as nothing for UTC.
    pub fn from_parts(
        date: Option<(u16, u8, u8)>,
        time: Option<(u8, u8, u8, u32)>,
        offset: Option<Option<i16>>,
    ) -> (datetime: Datetime)
        ensures
            datetime.date == match date {
                Some((year, month, day)) => Some(Date { year, month, day }),
                None => None,
            },
            datetime.time == match time {
                Some((hour, minute, second, nanosecond)) => Some(
                    Time { hour, minute, second, nanosecond },
                ),
                None => None,
            },
            datetime.offset == match offset {
                Some(Some(minutes)) => Some(Offset::Custom { minutes }),
                Some(None) => Some(Offset::Z),
                None => None,
            },
    {
        Datetime {
            date: match date {
                Some((year, month, day)) => Some(Date { year, month, day }),
                None => None,
            },
            time: match time {
                Some((hour, minute, second, nanosecond)) => Some(
                    Time { hour, minute, second, nanosecond },
                ),
                None => None,
            },
            offset: match offset {
                Some(Some(minutes)) => Some(Offset::Custom { minutes }),
                Some(None) => Some(Offset::Z),
                None => None,
            },
        }
    }
}

/// The date that stands in for a missing date: 1970-01-01.
pub open spec fn default_date() -> Date {
    Date { year: 1970, month: 1, day: 1 }
}

/// The time that stands in for a missing time: midnight.
pub open spec fn default_time() -> Time {
    Time { hour: 0, minute: 0, second: 0, nanosecond: 0 }
}

/// The offset that stands in for a missing offset: UTC.
pub open spec fn default_offset() -> Offset {
    Offset::Z
}

/// The mathematical model of a document value.
pub enum Doc {
    Str(Seq<char>),
    Int(i64),
    /// A 64-bit float, by its IEEE 754 bit pattern
    Float(u64),
    Bool(bool),
    Datetime(Datetime),
    Array(Seq<Doc>),
    Table(Seq<(Seq<char>, Doc)>),
}

/// A value of a document.
#[derive(Debug, PartialEq)]
pub enum Item {
    String(String),
    Integer(i64),
    /// A 64-bit float, held as its IEEE 754 bit pattern
    Float(u64),
    Boolean(bool),
    Datetime(Datetime),
    Array(Vec<Item>),
    Table(Vec<(String, Item)>),
}

/// A table of a document: its entries in document order.
pub type Table = Vec<(String, Item)>;

/// The document value that a `Item` stands for.
pub open spec fn doc_of(v: Item) -> Doc
    decreases v,
{
    match v {
        Item::String(s) => Doc::Str(s@),
        Item::Integer(i) => Doc::Int(i),
        Item::Float(bits) => Doc::Float(bits),
        Item::Boolean(b) => Doc::Bool(b),
        Item::Datetime(dt) => Doc::Datetime(dt),
        Item::Array(items) => Doc::Array(
            Seq::new(
                items.len() as nat,
                |i: int|
                    if 0 <= i < items.len() {
                        doc_of(items[i])
                    } else {
                        Doc::Bool(false)
                    },
            ),
        ),
        Item::Table(entries) => Doc::Table(
            Seq::new(
                entries.len() as nat,
                |i: int|
                    if 0 <= i < entries.len() {
                        (entries[i].0@, doc_of(entries[i].1))
                    } else {
                        (Seq::empty(), Doc::Bool(false))
                    },
            ),
        ),
    }
}

impl View for Item {
    type V = Doc;

    open spec fn view(&self) -> Doc {
        doc_of(*self)
    }
}

/// The document values of a list of values.
pub open spec fn docs_of(items: Seq<Item>) -> Seq<Doc> {
    Seq::new(items.len(), |i: int| items[i]@)
}

/// The entries of a table, each key by its text and each value by what it
/// stands for.
pub open spec fn table_of(entries: Seq<(String, Item)>) -> Seq<(Seq<char>, Doc)> {
    Seq::new(entries.len(), |i: int| (entries[i].0@, entries[i].1@))
}

/// An array stands for the array of what its elements stand for.
pub proof fn lemma_doc_array(items: Vec<Item>)
    ensures
        Item::Array(items)@ == Doc::Array(docs_of(items@)),
{
    assert(Item::Array(items)@->Array_0 =~= docs_of(items@));
}

/// A table stands for the table of its keys and what its values stand for.
pub proof fn lemma_doc_table(entries: Vec<(String, Item)>)
    ensures
        Item::Table(entries)@ == Doc::Table(table_of(entries@)),
{
    assert(Item::Table(entries)@->Table_0 =~= table_of(entries@));
}

impl Doc {
    /// No key occurs twice in a table.
    pub open spec fn well_formed(self) -> bool
        decreases self,
    {
        match self {
            Doc::Array(items) => forall|i: int|
                0 <= i < items.len() ==> (#[trigger] items[i]).well_formed(),
            Doc::Table(entries) => unique_keys(entries) && forall|i: int|
                0 <= i < entries.len() ==> (#[trigger] entries[i]).1.well_formed(),
            _ => true,
        }
    }
}

/// Copies the entries of a table.
pub fn clone_table(entries: &Vec<(String, Item)>) -> (copy: Vec<(String, Item)>)
    ensures
        table_of(copy@) == table_of(entries@),
    decreases entries,
{
    let mut copied: Vec<(String, Item)> = Vec::new();
    let mut i: usize = 0;
    while i < entries.len()
        invariant
            i <= entries.len(),
            copied.len() == i,
            forall|j: int|
                0 <= j < i ==> (#[trigger] copied[j]).0@ == entries[j].0@ && copied[j].1@
                    == entries[j].1@,
        decreases entries.len() - i,
    {
        copied.push((entries[i].0.clone(), entries[i].1.clone()));
        i += 1;
    }
    assert(table_of(copied@) =~= table_of(entries@));
    copied
}

impl Clone for Item {
    #[verifier::loop_isolation(false)]
    fn clone(&self) -> (copy: Self)
        ensures
            copy@ == self@,
        decreases self,
    {
        match self {
            Item::String(s) => Item::String(s.clone()),
            Item::Integer(i) => Item::Integer(*i),
            Item::Float(bits) => Item::Float(*bits),
            Item::Boolean(b) => Item::Boolean(*b),
            Item::Datetime(dt) => Item::Datetime(*dt),
            Item::Array(items) => {
                let mut copied: Vec<Item> = Vec::new();
                let mut i: usize = 0;
                while i < items.len()
                    invariant
                        i <= items.len(),
                        copied.len() == i,
                        forall|j: int| 0 <= j < i ==> (#[trigger] copied[j])@ == items[j]@,
                    decreases items.len() - i,
                {
                    copied.push(items[i].clone());
                    i += 1;
                }
                proof {
                    lemma_doc_array(copied);
                    lemma_doc_array(*items);
                    assert(docs_of(copied@) =~= docs_of(items@));
                }
                Item::Array(copied)
            },
            Item::Table(entries) => {
                let copied = clone_table(entries);
                proof {
                    lemma_doc_table(copied);
                    lemma_doc_table(*entries);
                }
                Item::Table(copied)
            },
        }
    }
}

/// The entries with `value` under `key`: in the place of the old value where
/// the key occurs, else at the end.
pub open spec fn inserted(entries: Seq<(Seq<char>, Doc)>, key: Seq<char>, value: Doc) -> Seq<
    (Seq<char>, Doc),
> {
    if has_key(entries, key) {
        entries.update(key_index(entries, key), (key, value))
    } else {
        entries.push((key, value))
    }
}

/// Inserting keeps the keys unique.
pub proof fn lemma_inserted_unique(entries: Seq<(Seq<char>, Doc)>, key: Seq<char>, value: Doc)
    requires
        unique_keys(entries),
    ensures
        unique_keys(inserted(entries, key, value)),
        has_key(inserted(entries, key, value), key),
        value_of(inserted(entries, key, value), key) == value,
{
    let after = inserted(entries, key, value);
    if has_key(entries, key) {
        let at = key_index(entries, key);
        assert(entries[at].0 == key);
        assert forall|i: int, j: int| 0 <= i < j < after.len() implies (#[trigger] after[i]).0 != (
        #[trigger] after[j]).0 by {
            assert(entries[i].0 != entries[j].0);
        }
        assert(after[at].0 == key);
        lemma_key_index(after, at);
    } else {
        assert forall|i: int, j: int| 0 <= i < j < after.len() implies (#[trigger] after[i]).0 != (
        #[trigger] after[j]).0 by {
            if j < entries.len() {
                assert(entries[i].0 != entries[j].0);
            } else {
                assert(entries[i].0 != key);
            }
        }
        assert(after[entries.len() as int].0 == key);
        lemma_key_index(after, entries.len() as int);
    }
}

/// Puts `value` under `key`, in the place of the old value where the key
/// occurs, else at the end.
pub fn insert(table: &mut Table, key: String, value: Item)
    requires
        unique_keys(table_of(old(table)@)),
    ensures
        table_of(final(table)@) == inserted(table_of(old(table)@), key@, value@),
        unique_keys(table_of(final(table)@)),
{
    let ghost before = table_of(table@);
    proof {
        lemma_inserted_unique(before, key@, value@);
    }
    match find_key(table, &key) {
        Some(at) => {
            proof {
                assert(before[at as int].0 == key@);
                lemma_key_index(before, at as int);
            }
            table[at] = (key, value);
            assert(table_of(table@) =~= before.update(at as int, (key@, value@)));
        },
        None => {
            proof {
                if has_key(before, key@) {
                    let t = key_index(before, key@);
                    assert(before[t].0 == old(table)[t].0@);
                }
            }
            table.push((key, value));
            assert(table_of(table@) =~= before.push((key@, value@)));
        },
    }
}

} // verus!
