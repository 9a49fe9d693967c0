//! What is read of a dataset, stated on its cells, fields and files.

use vstd::prelude::*;
use vstd::utf8::encode_utf8;
use crate::csv_input::{field_of, first_field, is_csv_dataset};
use crate::error::Error;
use crate::hashing::{fnv, fnv_step, hashed_partition, key_hash};
use crate::key_encoding::{plain_text, KeyDatum, KeyValue};
use crate::reader::{
    arranges_paths, cell_refused, clean_up_to, column_of_is, columns_present, explains_cell,
    explains_table, is_arrangement, key_cell, key_of_cell, row_matches, sorted_files, InputDataset,
    InputFile,
};
use crate::record_batch::{
    batch_columns, batch_row_count, cell_at, first_column, has_column, CellDatum, Table,
    TimestampUnit,
};
use crate::text::{
    blank, decimal_int_injective, drops_below_at, is_white_space, text_less, text_less_asymmetric,
};

verus! {

/// A timestamp keeps its instant: whatever its unit, the key holds the microseconds
/// since 1970, and of nanoseconds less than one microsecond is dropped, towards zero.
pub proof fn timestamps_keep_their_instant(unit: TimestampUnit, value: i64)
    requires
        !cell_refused(CellDatum::Timestamp(unit, value)),
    ensures
        key_of_cell(CellDatum::Timestamp(unit, value)) matches Some(KeyDatum::TimestampMicros(n))
            && match unit {
            TimestampUnit::Second => n == value * 1_000_000,
            TimestampUnit::Millisecond => n == value * 1_000,
            TimestampUnit::Microsecond => n == value,
            TimestampUnit::Nanosecond => if value >= 0 {
                0 <= value - n * 1_000 < 1_000
            } else {
                0 <= n * 1_000 - value < 1_000
            },
        },
{
}

/// Only seconds and milliseconds can lie too far from 1970: a timestamp is refused
/// exactly if its microseconds are more than 64 bits hold.
pub proof fn only_far_timestamps_are_refused(unit: TimestampUnit, value: i64)
    ensures
        cell_refused(CellDatum::Timestamp(unit, value)) <==> match unit {
            TimestampUnit::Second => value * 1_000_000 < i64::MIN || value * 1_000_000 > i64::MAX,
            TimestampUnit::Millisecond => value * 1_000 < i64::MIN || value * 1_000 > i64::MAX,
            _ => false,
        },
{
}

/// A cell of any type that can be a key has one, of its own type: nothing is refused
/// but types that cannot be keys and timestamps that are too far away.
pub proof fn cells_keep_type_and_value(cell: CellDatum)
    ensures
        !(cell is Other) && !(cell is Timestamp) ==> !cell_refused(cell),
        cell is Other ==> cell_refused(cell),
        key_of_cell(cell) == Some(KeyDatum::Null) <==> cell is Null,
        cell matches CellDatum::Text(s) ==> key_of_cell(cell) == Some(KeyDatum::Utf8(s)),
        key_of_cell(cell) matches Some(KeyDatum::Utf8(s)) ==> cell == CellDatum::Text(s),
        cell matches CellDatum::Signed(n) ==> key_of_cell(cell) == Some(KeyDatum::Int64(n)),
        key_of_cell(cell) matches Some(KeyDatum::Int64(n)) ==> cell == CellDatum::Signed(n),
        cell matches CellDatum::Unsigned(n) ==> key_of_cell(cell) == Some(KeyDatum::UInt64(n)),
        key_of_cell(cell) matches Some(KeyDatum::UInt64(n)) ==> cell == CellDatum::Unsigned(n),
        cell matches CellDatum::Boolean(b) ==> key_of_cell(cell) == Some(KeyDatum::Boolean(b)),
        key_of_cell(cell) matches Some(KeyDatum::Boolean(b)) ==> cell == CellDatum::Boolean(b),
        cell matches CellDatum::Date(n) ==> key_of_cell(cell) == Some(KeyDatum::Date32(n)),
        key_of_cell(cell) matches Some(KeyDatum::Date32(n)) ==> cell == CellDatum::Date(n),
{
}

/// A row of comma-separated values holds, in each key column, the text of the first
/// field under that name in the header; a field that is not there is null.
pub proof fn rows_hold_the_fields_of_their_record(
    file: InputFile,
    header: Seq<Seq<char>>,
    body: Seq<Seq<Seq<char>>>,
    columns: Seq<Seq<char>>,
    dataset: InputDataset,
    i: int,
    j: int,
    h: int,
)
    requires
        is_csv_dataset(file, header, body, columns, dataset),
        0 <= i < body.len(),
        0 <= j < columns.len(),
        0 <= h < header.len(),
        header[h] == columns[j],
        forall|g: int| 0 <= g < h ==> #[trigger] header[g] != columns[j],
    ensures
        dataset.rows.rows@.len() == body.len(),
        dataset.rows.rows@[i]@.contains_key(columns[j]),
        dataset.rows.rows@[i]@[columns[j]]@ == if h < body[i].len() {
            KeyDatum::Utf8(body[i][h])
        } else {
            KeyDatum::Null
        },
{
    assert(first_field(header, columns[j], h));
    let found = field_of(header, columns[j]);
    assert(first_field(header, columns[j], found));
    if found < h {
        assert(header[found] != columns[j]);
    } else if h < found {
        assert(header[h] != columns[j]);
    }
    let row = dataset.rows.rows@[i];
    assert(columns.contains(columns[j]));
    assert(row@[columns[j]]@ == row@[columns[j]]@);
}

/// The files under a directory are read in the order of their paths, each of them
/// once.
pub proof fn files_are_read_in_path_order(files: Seq<InputFile>, sorted: Seq<InputFile>)
    requires
        sorted_files(files, sorted),
    ensures
        sorted.len() == files.len(),
        sorted.to_multiset() == files.to_multiset(),
        forall|i: int, j: int|
            0 <= i < j < sorted.len() ==> text_less(
                (#[trigger] sorted[i]).path@,
                (#[trigger] sorted[j]).path@,
            ) || sorted[i].path@ == sorted[j].path@,
{
    let order = choose|order: Seq<int>| #[trigger]
        is_arrangement(order, files.len() as int) && arranges_paths(files, order) && sorted
            == Seq::new(order.len(), |i: int| files[order[i]]);
    assert forall|i: int, j: int| 0 <= i < j < sorted.len() implies text_less(
        (#[trigger] sorted[i]).path@,
        (#[trigger] sorted[j]).path@,
    ) || sorted[i].path@ == sorted[j].path@ by {
        assert(sorted[i] == files[order[i]] && sorted[j] == files[order[j]]);
    }
    arrangements_keep_items(files, order);
}

proof fn arrangements_keep_items<T>(items: Seq<T>, order: Seq<int>)
    requires
        is_arrangement(order, items.len() as int),
    ensures
        Seq::new(order.len(), |i: int| items[order[i]]).to_multiset() == items.to_multiset(),
    decreases items.len(),
{
    broadcast use vstd::seq_lib::group_to_multiset_ensures;

    let arranged = Seq::new(order.len(), |i: int| items[order[i]]);
    let n = items.len() as int;
    if n == 0 {
        assert(arranged =~= items);
    } else {
        let at = where_last_is(order, n);
        let rest = order.remove(at);
        let fewer = items.drop_last();
        assert forall|i: int| 0 <= i < rest.len() implies 0 <= #[trigger] rest[i] < n - 1 by {
            let k = if i < at { i } else { i + 1 };
            assert(rest[i] == order[k]);
            assert(order[k] != order[at]);
        }
        assert forall|i: int, j: int| 0 <= i < j < rest.len() implies #[trigger] rest[i]
            != #[trigger] rest[j] by {
            let a = if i < at { i } else { i + 1 };
            let b = if j < at { j } else { j + 1 };
            assert(rest[i] == order[a] && rest[j] == order[b]);
        }
        arrangements_keep_items(fewer, rest);
        assert(arranged.remove(at) =~= Seq::new(rest.len(), |i: int| fewer[rest[i]]));
        assert(arranged =~= arranged.remove(at).insert(at, items[n - 1]));
        vstd::seq_lib::to_multiset_insert(arranged.remove(at), at, items[n - 1]);
        assert(items =~= fewer.push(items[n - 1]));
        vstd::seq_lib::to_multiset_build(fewer, items[n - 1]);
    }
}

proof fn where_last_is(order: Seq<int>, n: int) -> (at: int)
    requires
        is_arrangement(order, n),
        n > 0,
    ensures
        0 <= at < n,
        order[at] == n - 1,
{
    if forall|i: int| 0 <= i < n ==> #[trigger] order[i] != n - 1 {
        let all = order.to_set();
        order.unique_seq_to_set();
        let room = vstd::set_lib::set_int_range(0, n - 1);
        vstd::set_lib::lemma_int_range(0, n - 1);
        assert(all.subset_of(room));
        vstd::set_lib::lemma_len_subset(all, room);
        0
    } else {
        choose|i: int| 0 <= i < n && #[trigger] order[i] == n - 1
    }
}

/// Values of one type keep apart in plain text, and only a null has no text.
pub proof fn plain_texts_keep_values_apart(a: KeyDatum, b: KeyDatum)
    ensures
        plain_text(a) is None <==> a is Null,
        a matches KeyDatum::Utf8(s) ==> plain_text(a) == Some(s),
        a matches KeyDatum::Decimal(s) ==> plain_text(a) == Some(s),
        a is Int64 && b is Int64 && plain_text(a) == plain_text(b) ==> a == b,
        a is UInt64 && b is UInt64 && plain_text(a) == plain_text(b) ==> a == b,
        a is Boolean && b is Boolean && plain_text(a) == plain_text(b) ==> a == b,
        a is Date32 && b is Date32 && plain_text(a) == plain_text(b) ==> a == b,
        a is TimestampMicros && b is TimestampMicros && plain_text(a) == plain_text(b) ==> a == b,
{
    reveal_strlit("true");
    reveal_strlit("false");
    assert("true"@.len() == 4 && "false"@.len() == 5);
    if plain_text(a) == plain_text(b) {
        match (a, b) {
            (KeyDatum::Int64(m), KeyDatum::Int64(n)) => decimal_int_injective(m as int, n as int),
            (KeyDatum::UInt64(m), KeyDatum::UInt64(n)) => decimal_int_injective(m as int, n as int),
            (KeyDatum::Date32(m), KeyDatum::Date32(n)) => decimal_int_injective(m as int, n as int),
            (
                KeyDatum::TimestampMicros(m),
                KeyDatum::TimestampMicros(n),
            ) => decimal_int_injective(m as int, n as int),
            _ => {},
        }
    }
}

/// The hash starts from the offset basis mixed with the seed, and takes in one byte
/// after the other: mixed in, then multiplied by the prime.
pub proof fn hashes_take_in_byte_after_byte(seed: u64, bytes: Seq<u8>, byte: u8)
    ensures
        fnv(seed, Seq::empty()) == 0xcbf2_9ce4_8422_2325u64 ^ seed,
        fnv(seed, bytes.push(byte)) == (fnv(seed, bytes) ^ (byte as u64)).wrapping_mul(
            0x0000_0100_0000_01b3u64,
        ),
{
    let f = |hash: u64, byte: u8| fnv_step(hash, byte);
    assert(bytes.push(byte).drop_last() =~= bytes);
    assert(Seq::<u8>::empty().fold_left(0xcbf2_9ce4_8422_2325u64 ^ seed, f)
        == 0xcbf2_9ce4_8422_2325u64 ^ seed);
}

/// A key that is placed by its hash goes to the remainder of the hash.
pub proof fn hashed_keys_go_to_the_remainder(key: Seq<char>, partition_count: usize, seed: u64)
    requires
        partition_count > 0,
    ensures
        hashed_partition(key, partition_count, seed) == (key_hash(seed, key) as usize)
            % partition_count,
        hashed_partition(key, partition_count, seed) < partition_count,
{
}

/// Texts stand in the order of their bytes: the first byte in which two of them differ
/// decides, and a text stands behind its beginnings.
pub proof fn texts_stand_in_byte_order(a: Seq<char>, b: Seq<char>, n: int)
    requires
        0 <= n <= encode_utf8(a).len(),
        n < encode_utf8(b).len(),
        encode_utf8(a).take(n) == encode_utf8(b).take(n),
        n == encode_utf8(a).len() || encode_utf8(a)[n] < encode_utf8(b)[n],
    ensures
        text_less(a, b),
        !text_less(b, a),
{
    let x = encode_utf8(a);
    let y = encode_utf8(b);
    assert forall|j: int| 0 <= j < n implies x[j] == y[j] by {
        assert(x.take(n)[j] == y.take(n)[j]);
    }
    assert(drops_below_at(x, y, n));
    text_less_asymmetric(a, b);
}

/// Printable characters are no white space, so that a text with one is not blank; the
/// usual spaces and line ends are.
pub proof fn printed_texts_are_not_blank(s: Seq<char>, i: int)
    requires
        0 <= i < s.len(),
    ensures
        0x21 <= s[i] as u32 <= 0x7E ==> !blank(s),
        s.len() == 1 && (s[i] == ' ' || s[i] == '\t' || s[i] == '\n' || s[i] == '\r') ==> blank(s),
        blank(Seq::empty()),
{
    if 0x21 <= s[i] as u32 <= 0x7E {
        assert(!is_white_space(s[i]));
    }
    if s.len() == 1 && (s[i] == ' ' || s[i] == '\t' || s[i] == '\n' || s[i] == '\r') {
        assert forall|j: int| 0 <= j < s.len() implies is_white_space(#[trigger] s[j]) by {
            assert(j == i);
        }
    }
}

/// A row of a table holds, in each key column, the value of its cell in the first column
/// of that name.
pub proof fn rows_hold_the_cells_of_their_table(
    table: Table,
    columns: Seq<Seq<char>>,
    row: int,
    values: Map<Seq<char>, KeyValue>,
    j: int,
    c: int,
)
    requires
        row_matches(table, columns, row, values),
        0 <= j < columns.len(),
        0 <= c < batch_columns(table).len(),
        batch_columns(table)[c].0 == columns[j],
        forall|i: int| 0 <= i < c ==> #[trigger] batch_columns(table)[i].0 != columns[j],
    ensures
        values.contains_key(columns[j]),
        key_of_cell(cell_at(table, c, row)) == Some(values[columns[j]]@),
{
    assert(first_column(table, columns[j], c));
    column_of_is(table, columns[j], c);
    assert(columns.contains(columns[j]));
}

/// Where all key columns are there, a table is refused for a cell of one of them that
/// cannot be a key or lies too far from 1970. The refusal names its column, and no row
/// before has such a cell.
pub proof fn refusals_name_the_first_cell(
    table: Table,
    columns: Seq<Seq<char>>,
    error: Error,
) -> (place: (int, int))
    requires
        explains_table(table, columns, error),
        forall|j: int|
            0 <= j < columns.len() ==> exists|i: int|
                0 <= i < batch_columns(table).len() && #[trigger] batch_columns(table)[i].0
                    == #[trigger] columns[j],
    ensures
        ({
            let (row, j) = place;
            let cell = key_cell(table, columns[j], row);
            &&& 0 <= row < batch_row_count(table)
            &&& 0 <= j < columns.len()
            &&& match error {
                Error::UnsupportedColumnType { column, data_type } => column@ == columns[j]
                    && cell is Other && cell.is_other(data_type@),
                Error::TimestampOutOfRange { column } => column@ == columns[j]
                    && cell is Timestamp,
                _ => false,
            }
            &&& forall|r: int, k: int|
                0 <= r < row && 0 <= k < columns.len() ==> !(#[trigger] key_cell(
                    table,
                    columns[k],
                    r,
                ) is Other)
            &&& forall|k: int|
                0 <= k < j ==> !(key_cell(table, #[trigger] columns[k], row) is Other)
        }),
{
    assert forall|j: int| 0 <= j < columns.len() implies has_column(table, #[trigger] columns[j]) by {
        let i = choose|i: int|
            0 <= i < batch_columns(table).len() && #[trigger] batch_columns(table)[i].0
                == columns[j];
        assert(batch_columns(table)[i].0 == columns[j]);
    }
    assert(columns_present(table, columns));
    let (row, j) = choose|row: int, j: int|
        0 <= row < batch_row_count(table) && 0 <= j < columns.len() && clean_up_to(
            table,
            columns,
            row,
            j,
        ) && cell_refused(#[trigger] key_cell(table, columns[j], row)) && explains_cell(
            columns[j],
            key_cell(table, columns[j], row),
            error,
        );
    assert forall|r: int, k: int| 0 <= r < row && 0 <= k < columns.len() implies !(
    #[trigger] key_cell(table, columns[k], r) is Other) by {
        assert(!cell_refused(key_cell(table, columns[k], r)));
    }
    assert forall|k: int| 0 <= k < j implies !(key_cell(
        table,
        #[trigger] columns[k],
        row,
    ) is Other) by {
        assert(!cell_refused(key_cell(table, columns[k], row)));
    }
    (row, j)
}

} // verus!
