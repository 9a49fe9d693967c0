//! The files of a partition: a file that has reached the target size is closed, and
//! the next table starts another.

use vstd::prelude::*;
use crate::manifest::OutputFile;
use crate::text::{decimal, decimal_digits, decimal_injective, decimal_prefix_injective, push_decimal};

verus! {

/// Most rows of a table that is written at once.
pub const TABLE_ROWS: usize = 1024;

/// A numeral with zeros in front, at least five places.
pub open spec fn padded(n: nat) -> Seq<char> {
    if decimal(n).len() < 5 {
        Seq::new((5 - decimal(n).len()) as nat, |i: int| '0') + decimal(n)
    } else {
        decimal(n)
    }
}

/// The path of a file of a partition, below the output directory. The first file
/// has the number of the partition, and each further one the next number.
pub open spec fn part_path(id: nat, part: nat) -> Seq<char> {
    "rp_partition="@ + decimal(id) + "/part-"@ + padded(id + part) + ".parquet"@
}

proof fn decimal_starts(n: nat)
    requires
        n > 0,
    ensures
        decimal(n)[0] != '0',
    decreases n,
{
    if n >= 10 {
        decimal_digits(n / 10);
        decimal_starts(n / 10);
    }
}

proof fn decimal_places(n: nat)
    ensures
        n < 10 <==> decimal(n).len() == 1,
{
    if n >= 10 {
        decimal_digits(n / 10);
    }
}

proof fn shorter_padded_differs(a: nat, b: nat)
    requires
        decimal(a).len() < decimal(b).len(),
    ensures
        padded(a) != padded(b),
{
    decimal_digits(a);
    decimal_digits(b);
    decimal_places(b);
    decimal_starts(b);
    let m = decimal(a).len();
    let n = decimal(b).len();
    if n <= 5 {
        assert(padded(b)[5 - n] == decimal(b)[0]);
        assert(padded(a)[5 - n] == '0');
    } else {
        assert(padded(b).len() == n);
        assert(padded(a).len() < n);
    }
}

/// Padding keeps numerals apart.
pub proof fn padded_injective(a: nat, b: nat)
    requires
        padded(a) == padded(b),
    ensures
        a == b,
{
    if decimal(a).len() < decimal(b).len() {
        shorter_padded_differs(a, b);
    } else if decimal(b).len() < decimal(a).len() {
        shorter_padded_differs(b, a);
    } else {
        let skipped = if decimal(a).len() < 5 { 5 - decimal(a).len() } else { 0 };
        assert(padded(a).skip(skipped) =~= decimal(a));
        assert(padded(b).skip(skipped) =~= decimal(b));
        decimal_injective(a, b);
    }
}

/// No two files share a path.
pub proof fn part_paths_differ(a: nat, i: nat, b: nat, j: nat)
    requires
        part_path(a, i) == part_path(b, j),
    ensures
        a == b,
        i == j,
{
    reveal_strlit("rp_partition=");
    reveal_strlit("/part-");
    let head = "rp_partition="@;
    let tail = ".parquet"@;
    let rest = "/part-"@.skip(1);
    assert("/part-"@ =~= seq!['/'] + rest);
    let x = rest + padded(a + i) + tail;
    let y = rest + padded(b + j) + tail;
    assert(part_path(a, i).skip(head.len() as int) =~= decimal(a) + seq!['/'] + x);
    assert(part_path(b, j).skip(head.len() as int) =~= decimal(b) + seq!['/'] + y);
    decimal_prefix_injective(a, b, '/', x, y);
    let k = rest.len() as int;
    assert(padded(a + i) =~= x.subrange(k, x.len() - tail.len()));
    assert(padded(b + j) =~= y.subrange(k, y.len() - tail.len()));
    padded_injective(a + i, b + j);
}

/// The path of a file of a partition, below the output directory.
pub fn part_file_path(partition_id: usize, part: usize) -> (path: String)
    ensures
        path@ == part_path(partition_id as nat, part as nat),
{
    let mut directory = String::new();
    push_decimal(&mut directory, partition_id as u128);
    let mut numeral = String::new();
    push_decimal(&mut numeral, partition_id as u128 + part as u128);
    assert(directory@ =~= decimal(partition_id as nat));
    assert(numeral@ =~= decimal((partition_id + part) as nat));
    let mut path = "rp_partition=".to_owned();
    path.append(&directory);
    path.append("/part-");
    let ghost head = path@;
    let mut places: usize = numeral.as_str().unicode_len();
    let ghost digits = places;
    proof {
        reveal_strlit("0");
        assert(path@ =~= head + Seq::new(0, |i: int| '0'));
    }
    while places < 5
        invariant
            digits <= places,
            digits < 5 ==> places <= 5,
            digits >= 5 ==> places == digits,
            path@ == head + Seq::new((places - digits) as nat, |i: int| '0'),
            "0"@ == seq!['0'],
        decreases 5 - places,
    {
        path.append("0");
        places += 1;
        assert(path@ =~= head + Seq::new((places - digits) as nat, |i: int| '0'));
    }
    path.append(&numeral);
    path.append(".parquet");
    assert(path@ =~= part_path(partition_id as nat, part as nat));
    path
}

/// What is to be done before the next table can be written.
#[derive(Debug, Clone, Copy, PartialEq, Eq, Structural)]
pub enum WriteStep {
    Open,
    Close,
    Write,
}

/// A closed file: its rows, and its size where it is known.
pub struct ClosedText {
    pub row_count: nat,
    pub size_bytes: Option<u64>,
}

/// The files of a partition while they are written: whether one is open, with its
/// rows, and those that are closed.
#[verifier::ext_equal]
pub struct OutputText {
    pub partition_id: nat,
    pub open: bool,
    pub row_count: nat,
    pub closed: Seq<ClosedText>,
}

/// The rows of closed files.
pub open spec fn listed_rows(files: Seq<ClosedText>) -> nat
    decreases files.len(),
{
    if files.len() == 0 {
        0
    } else {
        listed_rows(files.drop_last()) + files.last().row_count
    }
}

impl OutputText {
    /// A partition without files.
    pub open spec fn without_files(partition_id: nat) -> OutputText {
        OutputText { partition_id, open: false, row_count: 0, closed: Seq::empty() }
    }

    /// All rows that were written.
    pub open spec fn rows(self) -> nat {
        listed_rows(self.closed) + self.row_count
    }

    /// What comes next, for a file of a size and a target size.
    pub open spec fn step(self, size_bytes: u64, target_bytes: u64) -> WriteStep {
        if !self.open {
            WriteStep::Open
        } else if self.row_count > 0 && size_bytes >= target_bytes {
            WriteStep::Close
        } else {
            WriteStep::Write
        }
    }

    /// With a file that was opened.
    pub open spec fn opened(self) -> OutputText {
        OutputText { open: true, row_count: 0, ..self }
    }

    /// With more rows in the open file.
    pub open spec fn extended(self, rows: nat) -> OutputText {
        OutputText { row_count: self.row_count + rows, ..self }
    }

    /// With the open file closed.
    pub open spec fn shut(self, size_bytes: Option<u64>) -> OutputText {
        OutputText {
            open: false,
            row_count: 0,
            closed: self.closed.push(ClosedText { row_count: self.row_count, size_bytes }),
            ..self
        }
    }
}

/// The files of a partition while they are written.
#[derive(Debug, PartialEq, Eq)]
pub struct PartitionOutput {
    pub partition_id: usize,
    pub open: bool,
    pub row_count: u64,
    pub closed: Vec<OutputFile>,
}

impl View for PartitionOutput {
    type V = OutputText;

    open spec fn view(&self) -> OutputText {
        OutputText {
            partition_id: self.partition_id as nat,
            open: self.open,
            row_count: self.row_count as nat,
            closed: Seq::new(
                self.closed@.len(),
                |i: int|
                    ClosedText {
                        row_count: self.closed@[i].row_count as nat,
                        size_bytes: self.closed@[i].size_bytes,
                    },
            ),
        }
    }
}

impl PartitionOutput {
    /// Files are numbered one after the other, belong to the partition and are not
    /// empty; rows are only in a file that is open.
    pub open spec fn well_formed(self) -> bool {
        &&& forall|i: int|
            0 <= i < self.closed@.len() ==> {
                &&& (#[trigger] self.closed@[i]).partition_id == self.partition_id
                &&& self.closed@[i].path@ == part_path(self.partition_id as nat, i as nat)
                &&& self.closed@[i].row_count > 0
            }
        &&& !self.open ==> self.row_count == 0
    }

    /// A partition without files.
    pub fn new(partition_id: usize) -> (output: Self)
        ensures
            output@ == OutputText::without_files(partition_id as nat),
            output.well_formed(),
    {
        PartitionOutput { partition_id, open: false, row_count: 0, closed: Vec::new() }
    }

    /// What is to be done before the next table can be written: a file is opened
    /// where none is, and closed where it has rows and has reached the target size.
    pub fn next_step(&self, size_bytes: u64, target_bytes: u64) -> (step: WriteStep)
        ensures
            step == self@.step(size_bytes, target_bytes),
    {
        if !self.open {
            WriteStep::Open
        } else if self.row_count > 0 && size_bytes >= target_bytes {
            WriteStep::Close
        } else {
            WriteStep::Write
        }
    }

    /// The path of the file that is open, or of the next one.
    pub fn path(&self) -> (path: String)
        ensures
            path@ == part_path(self@.partition_id, self@.closed.len()),
    {
        part_file_path(self.partition_id, self.closed.len())
    }

    /// A file was opened.
    pub fn file_opened(&mut self)
        requires
            old(self).well_formed(),
            !old(self).open,
        ensures
            final(self).well_formed(),
            final(self)@ == old(self)@.opened(),
            final(self)@.rows() == old(self)@.rows(),
    {
        self.open = true;
    }

    /// The rows of a table were written to the open file.
    pub fn wrote(&mut self, rows: u64)
        requires
            old(self).well_formed(),
            old(self).open,
            rows <= TABLE_ROWS,
            old(self).row_count + rows <= u64::MAX,
        ensures
            final(self).well_formed(),
            final(self)@ == old(self)@.extended(rows as nat),
            final(self)@.rows() == old(self)@.rows() + rows,
    {
        self.row_count = self.row_count + rows;
    }

    /// The open file was closed with a size, where it is known.
    pub fn file_closed(&mut self, size_bytes: Option<u64>)
        requires
            old(self).well_formed(),
            old(self).open,
            old(self).row_count > 0,
        ensures
            final(self).well_formed(),
            final(self)@ == old(self)@.shut(size_bytes),
            final(self)@.rows() == old(self)@.rows(),
    {
        let ghost before = self.closed@;
        let ghost earlier = self@.closed;
        let path = self.path();
        self.closed.push(
            OutputFile {
                path,
                partition_id: self.partition_id,
                row_count: self.row_count,
                size_bytes,
            },
        );
        self.row_count = 0;
        self.open = false;
        proof {
            assert(self@.closed.drop_last() =~= earlier);
            assert forall|i: int| 0 <= i < self.closed@.len() implies {
                &&& (#[trigger] self.closed@[i]).partition_id == self.partition_id
                &&& self.closed@[i].path@ == part_path(self.partition_id as nat, i as nat)
                &&& self.closed@[i].row_count > 0
            } by {
                if i < before.len() {
                    assert(self.closed@[i] == before[i]);
                }
            }
        }
    }
}

/// The files of a partition have different paths.
pub proof fn output_paths_differ(output: PartitionOutput, i: int, j: int)
    requires
        output.well_formed(),
        0 <= i < output.closed@.len(),
        0 <= j < output.closed@.len(),
        output.closed@[i].path@ == output.closed@[j].path@,
    ensures
        i == j,
{
    part_paths_differ(
        output.partition_id as nat,
        i as nat,
        output.partition_id as nat,
        j as nat,
    );
}

/// What happens to the files of a partition. A table is written, and a file closed,
/// after its writer told the size that it had reached.
pub enum WriteEvent {
    Opened,
    Wrote { reached: u64, rows: nat },
    Closed { reached: u64, size_bytes: Option<u64> },
}

/// The files of a partition after some events.
pub open spec fn after_events(partition_id: nat, events: Seq<WriteEvent>) -> OutputText
    decreases events.len(),
{
    if events.len() == 0 {
        OutputText::without_files(partition_id)
    } else {
        let before = after_events(partition_id, events.drop_last());
        match events.last() {
            WriteEvent::Opened => before.opened(),
            WriteEvent::Wrote { rows, .. } => before.extended(rows),
            WriteEvent::Closed { size_bytes, .. } => before.shut(size_bytes),
        }
    }
}

/// The event is the one that is due, and no table has more rows than are written at
/// once.
pub open spec fn is_due(output: OutputText, event: WriteEvent, target_bytes: u64) -> bool {
    match event {
        WriteEvent::Opened => !output.open,
        WriteEvent::Wrote { reached, rows } => output.step(reached, target_bytes)
            == WriteStep::Write && rows <= TABLE_ROWS,
        WriteEvent::Closed { reached, .. } => output.step(reached, target_bytes)
            == WriteStep::Close,
    }
}

/// Each event was due when it happened.
pub open spec fn steps_followed(
    partition_id: nat,
    events: Seq<WriteEvent>,
    target_bytes: u64,
) -> bool
    decreases events.len(),
{
    events.len() > 0 ==> {
        &&& steps_followed(partition_id, events.drop_last(), target_bytes)
        &&& is_due(after_events(partition_id, events.drop_last()), events.last(), target_bytes)
    }
}

/// Each event was due when it happened, but that a file with rows may be closed at the
/// end, whatever its size.
pub open spec fn tables_written(
    partition_id: nat,
    events: Seq<WriteEvent>,
    target_bytes: u64,
) -> bool {
    ||| steps_followed(partition_id, events, target_bytes)
    ||| {
        let before = after_events(partition_id, events.drop_last());
        &&& events.len() > 0
        &&& steps_followed(partition_id, events.drop_last(), target_bytes)
        &&& events.last() is Closed
        &&& before.open
        &&& before.row_count > 0
    }
}

/// The size that each closed file had reached.
pub open spec fn reached_sizes(events: Seq<WriteEvent>) -> Seq<u64>
    decreases events.len(),
{
    if events.len() == 0 {
        Seq::empty()
    } else {
        let earlier = reached_sizes(events.drop_last());
        match events.last() {
            WriteEvent::Closed { reached, .. } => earlier.push(reached),
            _ => earlier,
        }
    }
}

/// The rows of all tables that were written.
pub open spec fn written_rows(events: Seq<WriteEvent>) -> nat
    decreases events.len(),
{
    if events.len() == 0 {
        0
    } else {
        written_rows(events.drop_last()) + match events.last() {
            WriteEvent::Wrote { rows, .. } => rows,
            _ => 0nat,
        }
    }
}

proof fn due_files_reach_the_target(
    partition_id: nat,
    events: Seq<WriteEvent>,
    target_bytes: u64,
)
    requires
        steps_followed(partition_id, events, target_bytes),
    ensures
        !after_events(partition_id, events).open ==> after_events(partition_id, events).row_count
            == 0,
        after_events(partition_id, events).rows() == written_rows(events),
        reached_sizes(events).len() == after_events(partition_id, events).closed.len(),
        forall|i: int|
            0 <= i < reached_sizes(events).len() ==> #[trigger] reached_sizes(events)[i]
                >= target_bytes,
        forall|i: int|
            0 <= i < after_events(partition_id, events).closed.len() ==> (
            #[trigger] after_events(partition_id, events).closed[i]).row_count > 0,
    decreases events.len(),
{
    if events.len() > 0 {
        due_files_reach_the_target(partition_id, events.drop_last(), target_bytes);
        let before = after_events(partition_id, events.drop_last());
        let now = after_events(partition_id, events);
        if events.last() is Closed {
            assert(now.closed.drop_last() =~= before.closed);
        }
    }
}

/// Over all tables of a partition, every file but the last had reached the target size
/// when it was closed; no file is empty, and the files hold the rows of the tables.
pub proof fn files_roll_at_the_target(
    partition_id: nat,
    events: Seq<WriteEvent>,
    target_bytes: u64,
)
    requires
        tables_written(partition_id, events, target_bytes),
    ensures
        ({
            let output = after_events(partition_id, events);
            let sizes = reached_sizes(events);
            &&& sizes.len() == output.closed.len()
            &&& forall|i: int| 0 <= i < sizes.len() - 1 ==> #[trigger] sizes[i] >= target_bytes
            &&& forall|i: int|
                0 <= i < output.closed.len() ==> (#[trigger] output.closed[i]).row_count > 0
            &&& output.rows() == written_rows(events)
        }),
{
    if steps_followed(partition_id, events, target_bytes) {
        due_files_reach_the_target(partition_id, events, target_bytes);
    } else {
        due_files_reach_the_target(partition_id, events.drop_last(), target_bytes);
        let before = after_events(partition_id, events.drop_last());
        let now = after_events(partition_id, events);
        assert(now.closed.drop_last() =~= before.closed);
    }
}

/// The last table of a file: the size that the file had reached before it, the rows
/// that the file had, and the rows of the table.
pub struct LastTable {
    pub reached: u64,
    pub rows_before: nat,
    pub rows: nat,
}

/// The last table of the open file.
pub open spec fn newest_table(partition_id: nat, events: Seq<WriteEvent>) -> Option<LastTable> {
    if events.len() == 0 {
        None
    } else {
        match events.last() {
            WriteEvent::Wrote { reached, rows } => Some(
                LastTable {
                    reached,
                    rows_before: after_events(partition_id, events.drop_last()).row_count,
                    rows,
                },
            ),
            _ => None,
        }
    }
}

/// The last table of each closed file.
pub open spec fn last_tables(partition_id: nat, events: Seq<WriteEvent>) -> Seq<Option<LastTable>>
    decreases events.len(),
{
    if events.len() == 0 {
        Seq::empty()
    } else {
        let earlier = last_tables(partition_id, events.drop_last());
        match events.last() {
            WriteEvent::Closed { .. } => earlier.push(
                newest_table(partition_id, events.drop_last()),
            ),
            _ => earlier,
        }
    }
}

/// All rows of a file but those of its last table fit below the target size.
pub open spec fn rolled_in_time(
    file: ClosedText,
    last_table: Option<LastTable>,
    target_bytes: u64,
) -> bool {
    last_table matches Some(last) && {
        &&& file.row_count == last.rows_before + last.rows
        &&& last.rows <= TABLE_ROWS
        &&& last.rows_before > 0 ==> last.reached < target_bytes
    }
}

proof fn due_files_roll_in_time(partition_id: nat, events: Seq<WriteEvent>, target_bytes: u64)
    requires
        steps_followed(partition_id, events, target_bytes),
    ensures
        ({
            let output = after_events(partition_id, events);
            let lasts = last_tables(partition_id, events);
            &&& output.open && output.row_count > 0 ==> rolled_in_time(
                ClosedText { row_count: output.row_count, size_bytes: None },
                newest_table(partition_id, events),
                target_bytes,
            )
            &&& lasts.len() == output.closed.len()
            &&& forall|i: int|
                0 <= i < lasts.len() ==> rolled_in_time(
                    output.closed[i],
                    #[trigger] lasts[i],
                    target_bytes,
                )
        }),
    decreases events.len(),
{
    if events.len() > 0 {
        due_files_roll_in_time(partition_id, events.drop_last(), target_bytes);
        due_files_reach_the_target(partition_id, events.drop_last(), target_bytes);
        closing_keeps_files(partition_id, events, target_bytes);
    }
}

proof fn closing_keeps_files(partition_id: nat, events: Seq<WriteEvent>, target_bytes: u64)
    requires
        events.len() > 0,
        ({
            let before = after_events(partition_id, events.drop_last());
            let lasts = last_tables(partition_id, events.drop_last());
            &&& events.last() is Closed ==> before.open && before.row_count > 0
            &&& before.open && before.row_count > 0 ==> rolled_in_time(
                ClosedText { row_count: before.row_count, size_bytes: None },
                newest_table(partition_id, events.drop_last()),
                target_bytes,
            )
            &&& lasts.len() == before.closed.len()
            &&& forall|i: int|
                0 <= i < lasts.len() ==> rolled_in_time(
                    before.closed[i],
                    #[trigger] lasts[i],
                    target_bytes,
                )
        }),
    ensures
        ({
            let output = after_events(partition_id, events);
            let lasts = last_tables(partition_id, events);
            &&& lasts.len() == output.closed.len()
            &&& forall|i: int|
                0 <= i < lasts.len() ==> rolled_in_time(
                    output.closed[i],
                    #[trigger] lasts[i],
                    target_bytes,
                )
        }),
{
    let before = after_events(partition_id, events.drop_last());
    let earlier = last_tables(partition_id, events.drop_last());
    let output = after_events(partition_id, events);
    let lasts = last_tables(partition_id, events);
    assert forall|i: int| 0 <= i < lasts.len() implies rolled_in_time(
        output.closed[i],
        #[trigger] lasts[i],
        target_bytes,
    ) by {
        if i < earlier.len() {
            assert(lasts[i] == earlier[i]);
            assert(output.closed[i] == before.closed[i]);
        }
    }
}

/// A file goes past the target size by its last table at most, which has no more rows
/// than are written at once: before that table the file was empty or below the target.
pub proof fn files_roll_in_time(partition_id: nat, events: Seq<WriteEvent>, target_bytes: u64)
    requires
        tables_written(partition_id, events, target_bytes),
    ensures
        ({
            let output = after_events(partition_id, events);
            let lasts = last_tables(partition_id, events);
            &&& lasts.len() == output.closed.len()
            &&& forall|i: int|
                0 <= i < lasts.len() ==> rolled_in_time(
                    output.closed[i],
                    #[trigger] lasts[i],
                    target_bytes,
                )
        }),
{
    if steps_followed(partition_id, events, target_bytes) {
        due_files_roll_in_time(partition_id, events, target_bytes);
    } else {
        due_files_roll_in_time(partition_id, events.drop_last(), target_bytes);
        closing_keeps_files(partition_id, events, target_bytes);
    }
}

/// A partition that reaches the target size before its last table has more than one
/// file: where all its rows lie in one file, those before the last rows, no more than
/// are written at once, stayed below the target.
pub proof fn large_partitions_roll(partition_id: nat, events: Seq<WriteEvent>, target_bytes: u64)
    requires
        tables_written(partition_id, events, target_bytes),
        after_events(partition_id, events).closed.len() == 1,
        !after_events(partition_id, events).open,
    ensures
        ({
            let last = last_tables(partition_id, events)[0];
            &&& last matches Some(table) && {
                &&& written_rows(events) == table.rows_before + table.rows
                &&& table.rows <= TABLE_ROWS
                &&& written_rows(events) > TABLE_ROWS ==> table.reached < target_bytes
            }
        }),
{
    files_roll_in_time(partition_id, events, target_bytes);
    files_roll_at_the_target(partition_id, events, target_bytes);
    let output = after_events(partition_id, events);
    assert(rolled_in_time(
        output.closed[0],
        last_tables(partition_id, events)[0],
        target_bytes,
    ));
    reveal_with_fuel(listed_rows, 2);
    closed_outputs_have_no_rows(partition_id, events, target_bytes);
}

proof fn closed_outputs_have_no_rows(
    partition_id: nat,
    events: Seq<WriteEvent>,
    target_bytes: u64,
)
    requires
        tables_written(partition_id, events, target_bytes),
        !after_events(partition_id, events).open,
    ensures
        after_events(partition_id, events).row_count == 0,
{
    if steps_followed(partition_id, events, target_bytes) {
        due_files_reach_the_target(partition_id, events, target_bytes);
    }
}

/// A table starts a file whenever the one before had reached the target size: no table
/// goes into a file that has rows and has reached it.
pub proof fn full_files_take_no_table(
    partition_id: nat,
    events: Seq<WriteEvent>,
    target_bytes: u64,
    k: int,
)
    requires
        tables_written(partition_id, events, target_bytes),
        0 <= k < events.len(),
        events[k] is Wrote,
    ensures
        ({
            let before = after_events(partition_id, events.take(k));
            &&& before.open
            &&& events[k]->Wrote_reached >= target_bytes ==> before.row_count == 0
        }),
    decreases events.len(),
{
    if k == events.len() - 1 {
        assert(events.take(k) =~= events.drop_last());
    } else {
        assert(events.drop_last().take(k) =~= events.take(k));
        full_files_take_no_table(partition_id, events.drop_last(), target_bytes, k);
    }
}

} // verus!
