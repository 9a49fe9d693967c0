//! Rows with the values of their key columns.

use vstd::prelude::*;
use crate::key_encoding::{encode_key_part, encoded_part, encoded_part_prefix_injective, KeyValue};
use crate::keymap::KeyMap;

verus! {

/// The rows of a dataset, in the order in which they were read.
#[derive(Debug, PartialEq, Eq)]
pub struct Dataset {
    pub rows: Vec<Row>,
}

/// One row: the values of its key columns.
#[derive(Debug, PartialEq, Eq)]
pub struct Row {
    key_values: KeyMap<KeyValue>,
}

impl View for Row {
    type V = Map<Seq<char>, KeyValue>;

    closed spec fn view(&self) -> Map<Seq<char>, KeyValue> {
        self.key_values@
    }
}

impl Clone for Row {
    fn clone(&self) -> (res: Self)
        ensures
            res@ == self@,
    {
        let key_values = self.key_values.clone();
        let ghost p = self.key_values.pairs();
        let ghost q = key_values.pairs();
        assert forall|i: int| 0 <= i < p.len() implies p[i] == q[i] by {
            assert(q[i].0 == p[i].0);
        }
        assert(p =~= q);
        Row { key_values }
    }
}

impl Clone for Dataset {
    fn clone(&self) -> (res: Self)
        ensures
            res.rows@.len() == self.rows@.len(),
            forall|i: int| 0 <= i < self.rows@.len() ==> #[trigger] res.rows@[i]@ == self.rows@[i]@,
    {
        Dataset { rows: self.rows.clone() }
    }
}

/// The contents of a sequence of strings.
pub open spec fn texts(strings: Seq<String>) -> Seq<Seq<char>> {
    Seq::new(strings.len(), |i: int| strings[i]@)
}

/// Key parts with the separator between them.
pub open spec fn joined(parts: Seq<Seq<char>>) -> Seq<char>
    decreases parts.len(),
{
    if parts.len() == 0 {
        seq![]
    } else if parts.len() == 1 {
        parts[0]
    } else {
        parts[0] + seq!['|'] + joined(parts.drop_first())
    }
}

/// What the values of a row hold for each of the columns.
pub open spec fn key_parts(
    values: Map<Seq<char>, KeyValue>,
    columns: Seq<Seq<char>>,
) -> Seq<Seq<char>> {
    Seq::new(columns.len(), |i: int| encoded_part(columns[i], values[columns[i]]@))
}

/// The row has a value in each of the columns.
pub open spec fn has_columns(values: Map<Seq<char>, KeyValue>, columns: Seq<Seq<char>>) -> bool {
    forall|i: int| 0 <= i < columns.len() ==> values.contains_key(#[trigger] columns[i])
}

/// The key of a row over some columns, unless a column is missing.
pub open spec fn row_key(values: Map<Seq<char>, KeyValue>, columns: Seq<Seq<char>>) -> Option<
    Seq<char>,
> {
    if has_columns(values, columns) {
        Some(joined(key_parts(values, columns)))
    } else {
        None
    }
}

/// What is still to come after the first `i` parts.
spec fn joined_rest(parts: Seq<Seq<char>>, i: int) -> Seq<char> {
    if i == 0 {
        joined(parts)
    } else if i < parts.len() {
        seq!['|'] + joined(parts.skip(i))
    } else {
        seq![]
    }
}

proof fn joined_rest_step(parts: Seq<Seq<char>>, i: int)
    requires
        0 <= i < parts.len(),
    ensures
        joined_rest(parts, i) == (if i == 0 {
            seq![]
        } else {
            seq!['|']
        }) + parts[i] + joined_rest(parts, i + 1),
{
    let tail = parts.skip(i);
    if i == 0 {
        assert(tail =~= parts);
    }
    assert(tail[0] == parts[i]);
    assert(tail.drop_first() =~= parts.skip(i + 1));
    assert(joined_rest(parts, i) =~= (if i == 0 {
        seq![]
    } else {
        seq!['|']
    }) + parts[i] + joined_rest(parts, i + 1));
}

impl Dataset {
    /// A dataset of the given rows.
    pub fn new(rows: Vec<Row>) -> (dataset: Self)
        ensures
            dataset.rows == rows,
    {
        Dataset { rows }
    }

    /// A dataset without rows.
    pub fn empty() -> (dataset: Self)
        ensures
            dataset.rows@ == Seq::<Row>::empty(),
    {
        Dataset { rows: Vec::new() }
    }

    /// One row for each text, under one key column.
    pub fn from_key_values(key_column: &str, values: Vec<String>) -> (dataset: Self)
        ensures
            dataset.rows@.len() == values@.len(),
            forall|i: int| 0 <= i < values@.len() ==> #[trigger] dataset.rows@[i]@
                == map![key_column@ => KeyValue::Utf8(values@[i])],
    {
        let mut rows: Vec<Row> = Vec::new();
        let mut i: usize = 0;
        while i < values.len()
            invariant
                i <= values@.len(),
                rows@.len() == i,
                forall|j: int| 0 <= j < i ==> #[trigger] rows@[j]@ == map![key_column@ => KeyValue::Utf8(values@[j])],
            decreases values.len() - i,
        {
            rows.push(Row::from_key_value(key_column, KeyValue::Utf8(values[i].clone())));
            i += 1;
        }
        Dataset { rows }
    }

    /// Number of rows.
    pub fn row_count(&self) -> (count: u64)
        ensures
            count == self.rows@.len(),
    {
        self.rows.len() as u64
    }
}

impl Row {
    /// A row with the given values.
    pub fn new(key_values: KeyMap<KeyValue>) -> (row: Self)
        ensures
            row@ == key_values@,
    {
        Row { key_values }
    }

    /// A row with one value.
    pub fn from_key_value(key_column: &str, value: KeyValue) -> (row: Self)
        ensures
            row@ == map![key_column@ => value],
    {
        let mut key_values: KeyMap<KeyValue> = KeyMap::new();
        key_values.insert(key_column.to_owned(), value);
        Row { key_values }
    }

    /// The values of the row by column.
    pub fn key_values(&self) -> (key_values: &KeyMap<KeyValue>)
        ensures
            key_values@ == self@,
    {
        &self.key_values
    }

    /// The key of the row: its encoded parts in the order of the columns. A row
    /// that lacks one of the columns has none.
    pub fn partition_key(&self, key_columns: &[String]) -> (key: Option<String>)
        ensures
            match key {
                Some(text) => row_key(self@, texts(key_columns@)) == Some(text@),
                None => row_key(self@, texts(key_columns@)) is None,
            },
    {
        let ghost columns = texts(key_columns@);
        let ghost parts = key_parts(self@, columns);
        let mut out = String::new();
        let mut i: usize = 0;
        assert(out@ + joined_rest(parts, 0) =~= joined(parts));
        while i < key_columns.len()
            invariant
                i <= key_columns@.len(),
                columns == texts(key_columns@),
                parts == key_parts(self@, columns),
                forall|j: int| 0 <= j < i ==> self@.contains_key(#[trigger] columns[j]),
                out@ + joined_rest(parts, i as int) == joined(parts),
            decreases key_columns.len() - i,
        {
            match self.key_values.get(&key_columns[i]) {
                Some(value) => {
                    let ghost before = out@;
                    if i > 0 {
                        out.append("|");
                    }
                    let part = encode_key_part(&key_columns[i], value);
                    out.append(&part);
                    proof {
                        reveal_strlit("|");
                        assert(columns[i as int] == key_columns@[i as int]@);
                        joined_rest_step(parts, i as int);
                        assert(out@ + joined_rest(parts, i + 1) =~= before + joined_rest(
                            parts,
                            i as int,
                        ));
                    }
                },
                None => {
                    assert(columns[i as int] == key_columns@[i as int]@);
                    return None;
                },
            }
            i += 1;
        }
        proof {
            if parts.len() == 0 {
                assert(joined(parts) =~= out@);
            } else {
                assert(out@ + joined_rest(parts, i as int) =~= out@);
            }
        }
        Some(out)
    }
}

proof fn joined_parts_injective(
    a: Map<Seq<char>, KeyValue>,
    b: Map<Seq<char>, KeyValue>,
    columns: Seq<Seq<char>>,
    i: int,
)
    requires
        0 <= i < columns.len(),
        joined(key_parts(a, columns).skip(i)) == joined(key_parts(b, columns).skip(i)),
    ensures
        forall|j: int| i <= j < columns.len() ==> a[#[trigger] columns[j]]@ == b[columns[j]]@,
    decreases columns.len() - i,
{
    let p = key_parts(a, columns).skip(i);
    let q = key_parts(b, columns).skip(i);
    let none = Seq::<char>::empty();
    let x = if p.len() == 1 { none } else { seq!['|'] + joined(p.drop_first()) };
    let y = if q.len() == 1 { none } else { seq!['|'] + joined(q.drop_first()) };
    assert(p[0] == encoded_part(columns[i], a[columns[i]]@));
    assert(q[0] == encoded_part(columns[i], b[columns[i]]@));
    assert(joined(p) =~= p[0] + x);
    assert(joined(q) =~= q[0] + y);
    encoded_part_prefix_injective(
        columns[i],
        a[columns[i]]@,
        columns[i],
        b[columns[i]]@,
        x,
        y,
    );
    if i + 1 < columns.len() {
        assert(p.drop_first() =~= key_parts(a, columns).skip(i + 1));
        assert(q.drop_first() =~= key_parts(b, columns).skip(i + 1));
        assert(joined(p.drop_first()) =~= x.drop_first());
        assert(joined(q.drop_first()) =~= y.drop_first());
        joined_parts_injective(a, b, columns, i + 1);
    }
    assert forall|j: int| i <= j < columns.len() implies a[#[trigger] columns[j]]@ == b[columns[j]]@ by {
        if j == i {
        }
    }
}

/// Two rows with the same key over the same columns hold the same value in
/// each of them, whatever characters the values hold.
pub proof fn row_key_injective(
    a: Map<Seq<char>, KeyValue>,
    b: Map<Seq<char>, KeyValue>,
    columns: Seq<Seq<char>>,
)
    requires
        row_key(a, columns) is Some,
        row_key(a, columns) == row_key(b, columns),
    ensures
        forall|i: int| 0 <= i < columns.len() ==> a[#[trigger] columns[i]]@ == b[columns[i]]@,
{
    if columns.len() > 0 {
        assert(key_parts(a, columns).skip(0) =~= key_parts(a, columns));
        assert(key_parts(b, columns).skip(0) =~= key_parts(b, columns));
        joined_parts_injective(a, b, columns, 0);
    }
}

/// The keys of the rows of a dataset.
pub open spec fn row_keys(rows: Seq<Row>, columns: Seq<Seq<char>>) -> Seq<Option<Seq<char>>> {
    Seq::new(rows.len(), |i: int| row_key(rows[i]@, columns))
}

} // verus!
