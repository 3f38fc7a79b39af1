//! Reading subjects from a table: the rows of one subject stand together,
//! and agree on what the table says of the subject.

use crate::labels::{lemma_position, position};
use crate::text::{same_text, strings_view, strs_view};
pub use void::Void;
use vstd::prelude::*;
use vstd::string::StringExecFns;

verus! {

/// A value that is read from some cells of a row of the table.
pub trait FromRow: Sized + View {
    type ParseError;

    /// The names of the columns that the value is read from.
    spec fn columns() -> Seq<Seq<char>>;

    /// The names of the columns that the value is read from.
    fn column_names() -> (names: Vec<&'static str>)
        ensures
            strs_view(names@) == Self::columns(),
    ;

    /// What the cells decode to over the given table of labels, or the
    /// error that says why they do not decode.
    spec fn row_value(alternatives: Seq<Seq<char>>, row: Seq<Seq<char>>) -> Result<
        Self::V,
        Self::ParseError,
    >;

    /// The table of labels after decoding the cells.
    spec fn row_table(alternatives: Seq<Seq<char>>, row: Seq<Seq<char>>) -> Seq<Seq<char>>;

    /// Decoding keeps the labels of the table where they are, and adds at
    /// its end.
    proof fn lemma_row_table(alternatives: Seq<Seq<char>>, row: Seq<Seq<char>>)
        ensures
            alternatives.is_prefix_of(Self::row_table(alternatives, row)),
    ;

    /// Decodes the cells of one row, which come in the order of their
    /// columns in the table; labels that the table of alternatives lacks
    /// may be added to it.
    fn from_row(alternatives: &mut Vec<String>, row: &[&str]) -> (res: Result<
        Self,
        Self::ParseError,
    >)
        ensures
            strings_view(final(alternatives)@) == Self::row_table(
                strings_view(old(alternatives)@),
                strs_view(row@),
            ),
            strings_view(old(alternatives)@).is_prefix_of(strings_view(final(alternatives)@)),
            match res {
                Ok(v) => Self::row_value(strings_view(old(alternatives)@), strs_view(row@))
                    == Ok::<Self::V, Self::ParseError>(v@),
                Err(e) => Self::row_value(strings_view(old(alternatives)@), strs_view(row@))
                    == Err::<Self::V, Self::ParseError>(e),
            },
    ;

    /// Whether the two values stand for the same.
    fn same(&self, other: &Self) -> (r: bool)
        ensures
            r == (self@ == other@),
    ;
}

/// A value that is read from one cell of the table.
pub trait FromCell: Sized + View {
    type ParseError;

    /// What the cell decodes to over the given table of labels, or the
    /// error that says why it does not decode.
    spec fn cell_value(alternatives: Seq<Seq<char>>, cell: Seq<char>) -> Result<
        Self::V,
        Self::ParseError,
    >;

    /// The table of labels after decoding the cell.
    spec fn cell_table(alternatives: Seq<Seq<char>>, cell: Seq<char>) -> Seq<Seq<char>>;

    /// Decoding keeps the labels of the table where they are, and adds at
    /// its end.
    proof fn lemma_cell_table(alternatives: Seq<Seq<char>>, cell: Seq<char>)
        ensures
            alternatives.is_prefix_of(Self::cell_table(alternatives, cell)),
    ;

    /// Decodes one cell; labels that the table of alternatives lacks may be
    /// added to it.
    fn from_cell(alternatives: &mut Vec<String>, cell: &str) -> (res: Result<
        Self,
        Self::ParseError,
    >)
        ensures
            strings_view(final(alternatives)@) == Self::cell_table(
                strings_view(old(alternatives)@),
                cell@,
            ),
            strings_view(old(alternatives)@).is_prefix_of(strings_view(final(alternatives)@)),
            match res {
                Ok(v) => Self::cell_value(strings_view(old(alternatives)@), cell@) == Ok::<
                    Self::V,
                    Self::ParseError,
                >(v@),
                Err(e) => Self::cell_value(strings_view(old(alternatives)@), cell@) == Err::<
                    Self::V,
                    Self::ParseError,
                >(e),
            },
    ;
}

/// A value that can be written into one cell of the table.
pub trait ToCell {
    /// Whether the table of labels names all that the value refers to.
    spec fn writable(&self, alternatives: Seq<Seq<char>>) -> bool;

    /// The text of the cell.
    spec fn cell_text(&self, alternatives: Seq<Seq<char>>) -> Seq<char>;

    /// Writes the value as the text of a cell.
    fn to_cell(&self, alternatives: &[String]) -> (cell: String)
        requires
            self.writable(strings_view(alternatives@)),
        ensures
            cell@ == self.cell_text(strings_view(alternatives@)),
    ;
}

impl FromRow for () {
    type ParseError = void::Void;

    open spec fn columns() -> Seq<Seq<char>> {
        Seq::empty()
    }

    fn column_names() -> (names: Vec<&'static str>) {
        let names: Vec<&'static str> = Vec::new();
        assert(strs_view(names@) =~= Seq::<Seq<char>>::empty());
        names
    }

    open spec fn row_value(alternatives: Seq<Seq<char>>, row: Seq<Seq<char>>) -> Result<
        (),
        void::Void,
    > {
        Ok(())
    }

    proof fn lemma_row_table(alternatives: Seq<Seq<char>>, row: Seq<Seq<char>>) {
        assert(alternatives =~= alternatives.subrange(0, alternatives.len() as int));
    }

    open spec fn row_table(alternatives: Seq<Seq<char>>, row: Seq<Seq<char>>) -> Seq<Seq<char>> {
        alternatives
    }

    fn from_row(_alternatives: &mut Vec<String>, _row: &[&str]) -> (res: Result<(), void::Void>) {
        proof {
            Self::lemma_row_table(strings_view(_alternatives@), strs_view(_row@));
        }
        Ok(())
    }

    fn same(&self, _other: &()) -> (r: bool) {
        true
    }
}

/// One subject: what the table says of it, and its rows in the order of the
/// table.
pub struct Subject<Sub, Row> {
    pub name: String,
    pub alternatives: Vec<String>,
    pub data: Sub,
    pub rows: Vec<Row>,
}

/// A subject as mathematics sees it.
pub struct SubjectView<S, R> {
    pub name: Seq<char>,
    pub alternatives: Seq<Seq<char>>,
    pub data: S,
    pub rows: Seq<R>,
}

impl<Sub: View, Row: View> View for Subject<Sub, Row> {
    type V = SubjectView<Sub::V, Row::V>;

    open spec fn view(&self) -> Self::V {
        SubjectView {
            name: self.name@,
            alternatives: strings_view(self.alternatives@),
            data: self.data@,
            rows: self.rows@.map_values(|r: Row| r@),
        }
    }
}

/// Why no subject can be read, or no further one.
#[derive(Debug)]
pub enum ReadError<SubE, RowE> {
    Csv(csv::Error),
    ColumnOverlap(String),
    ParseSub(SubE),
    ParseRow(RowE),
    RowTooShort(usize),
    SubjectDiscontiguous(String),
    SubjectInconsistent(String),
    NoNameColumn(String),
}

/// An error as mathematics sees it.
pub enum Failure<SubE, RowE> {
    Csv(csv::Error),
    ColumnOverlap(Seq<char>),
    ParseSub(SubE),
    ParseRow(RowE),
    RowTooShort(usize),
    SubjectDiscontiguous(Seq<char>),
    SubjectInconsistent(Seq<char>),
    NoNameColumn(Seq<char>),
}

impl<SubE, RowE> View for ReadError<SubE, RowE> {
    type V = Failure<SubE, RowE>;

    open spec fn view(&self) -> Failure<SubE, RowE> {
        match self {
            ReadError::Csv(e) => Failure::Csv(*e),
            ReadError::ColumnOverlap(name) => Failure::ColumnOverlap(name@),
            ReadError::ParseSub(e) => Failure::ParseSub(*e),
            ReadError::ParseRow(e) => Failure::ParseRow(*e),
            ReadError::RowTooShort(i) => Failure::RowTooShort(*i),
            ReadError::SubjectDiscontiguous(name) => Failure::SubjectDiscontiguous(name@),
            ReadError::SubjectInconsistent(name) => Failure::SubjectInconsistent(name@),
            ReadError::NoNameColumn(name) => Failure::NoNameColumn(name@),
        }
    }
}

/// The columns of the table that values of `T` are read from.
pub struct Columns<T> {
    indices: Vec<usize>,
    phantom: core::marker::PhantomData<T>,
}

impl<T> View for Columns<T> {
    type V = Seq<usize>;

    closed spec fn view(&self) -> Seq<usize> {
        self.indices@
    }
}

/// Which columns of the table hold what.
pub struct Layout {
    pub ix_name: usize,
    pub cols_sub: Seq<usize>,
    pub cols_row: Seq<usize>,
}

/// The subject whose rows are being read.
pub struct Group<S, R> {
    pub name: Seq<char>,
    pub data: S,
    pub rows: Seq<R>,
}

/// What has been made of the rows read so far.
pub struct Grouping<S, R> {
    pub table: Seq<Seq<char>>,
    pub closed: Set<Seq<char>>,
    pub current: Option<Group<S, R>>,
}

/// One row, decoded.
pub struct Decoded<S, R> {
    pub name: Seq<char>,
    pub data: S,
    pub row: R,
    pub table: Seq<Seq<char>>,
}

/// What one row does to the grouping.
pub enum Step<S, R, SubE, RowE> {
    Continue(Grouping<S, R>),
    Emit(SubjectView<S, R>, Grouping<S, R>),
    Fail(Failure<SubE, RowE>),
}

/// A record of the table as it was read: its cells, or why it has none.
pub type Record = Result<Seq<Seq<char>>, csv::Error>;

/// The first of `indices`, from position `from` on, that a row of `width`
/// cells lacks.
pub open spec fn first_short(width: nat, indices: Seq<usize>, from: int) -> Option<usize>
    decreases indices.len() - from,
{
    if from < 0 || from >= indices.len() {
        None
    } else if indices[from] >= width {
        Some(indices[from])
    } else {
        first_short(width, indices, from + 1)
    }
}

/// The cells of the columns `indices`, in that order.
pub open spec fn project(cells: Seq<Seq<char>>, indices: Seq<usize>) -> Seq<Seq<char>> {
    Seq::new(indices.len(), |i: int| cells[indices[i] as int])
}

/// Decoding one row over the table of labels: first the name, then what the
/// row says of the subject, then the row's own data.
pub open spec fn decode<Sub: FromRow, Row: FromRow>(
    table: Seq<Seq<char>>,
    layout: Layout,
    cells: Seq<Seq<char>>,
) -> Result<Decoded<Sub::V, Row::V>, Failure<Sub::ParseError, Row::ParseError>> {
    if layout.ix_name >= cells.len() {
        Err(Failure::RowTooShort(layout.ix_name))
    } else if let Some(i) = first_short(cells.len(), layout.cols_sub, 0) {
        Err(Failure::RowTooShort(i))
    } else {
        match Sub::row_value(table, project(cells, layout.cols_sub)) {
            Err(e) => Err(Failure::ParseSub(e)),
            Ok(data) => {
                let table1 = Sub::row_table(table, project(cells, layout.cols_sub));
                if let Some(i) = first_short(cells.len(), layout.cols_row, 0) {
                    Err(Failure::RowTooShort(i))
                } else {
                    match Row::row_value(table1, project(cells, layout.cols_row)) {
                        Err(e) => Err(Failure::ParseRow(e)),
                        Ok(row) => Ok(
                            Decoded {
                                name: cells[layout.ix_name as int],
                                data,
                                row,
                                table: Row::row_table(table1, project(cells, layout.cols_row)),
                            },
                        ),
                    }
                }
            },
        }
    }
}

/// What a decoded row does to the grouping: it opens the first subject,
/// joins the subject that is open, or closes it and opens the next.
pub open spec fn regroup<S, R, SubE, RowE>(g: Grouping<S, R>, d: Decoded<S, R>) -> Step<
    S,
    R,
    SubE,
    RowE,
> {
    let opened = Group { name: d.name, data: d.data, rows: seq![d.row] };
    match g.current {
        None => Step::Continue(
            Grouping { table: d.table, closed: g.closed, current: Some(opened) },
        ),
        Some(cur) => if d.name == cur.name {
            if d.data != cur.data {
                Step::Fail(Failure::SubjectInconsistent(cur.name))
            } else {
                Step::Continue(
                    Grouping {
                        table: d.table,
                        closed: g.closed,
                        current: Some(
                            Group { name: cur.name, data: cur.data, rows: cur.rows.push(d.row) },
                        ),
                    },
                )
            }
        } else if g.closed.contains(d.name) {
            Step::Fail(Failure::SubjectDiscontiguous(d.name))
        } else {
            Step::Emit(
                SubjectView {
                    name: cur.name,
                    alternatives: d.table,
                    data: cur.data,
                    rows: cur.rows,
                },
                Grouping {
                    table: d.table,
                    closed: g.closed.insert(cur.name),
                    current: Some(opened),
                },
            )
        },
    }
}

/// What one record does to the grouping.
pub open spec fn step<Sub: FromRow, Row: FromRow>(
    g: Grouping<Sub::V, Row::V>,
    layout: Layout,
    record: Record,
) -> Step<Sub::V, Row::V, Sub::ParseError, Row::ParseError> {
    match record {
        Err(e) => Step::Fail(Failure::Csv(e)),
        Ok(cells) => match decode::<Sub, Row>(g.table, layout, cells) {
            Err(f) => Step::Fail(f),
            Ok(d) => regroup(g, d),
        },
    }
}

/// Where the reading of a table stands: what has been made of the records
/// read, and the records still to read.
pub struct Progress<S, R> {
    pub grouping: Grouping<S, R>,
    pub pending: Seq<Record>,
}

/// The next item of the sequence of subjects, and where the reading stands
/// after it. A failure ends the sequence: nothing stands after it.
pub open spec fn next_of<Sub: FromRow, Row: FromRow>(
    p: Progress<Sub::V, Row::V>,
    layout: Layout,
) -> (
    Option<Result<SubjectView<Sub::V, Row::V>, Failure<Sub::ParseError, Row::ParseError>>>,
    Option<Progress<Sub::V, Row::V>>,
)
    decreases p.pending.len(),
{
    if p.pending.len() == 0 {
        let rest = Progress {
            grouping: Grouping {
                table: p.grouping.table,
                closed: p.grouping.closed,
                current: None,
            },
            pending: p.pending,
        };
        match p.grouping.current {
            Some(cur) => (
                Some(
                    Ok(
                        SubjectView {
                            name: cur.name,
                            alternatives: p.grouping.table,
                            data: cur.data,
                            rows: cur.rows,
                        },
                    ),
                ),
                Some(rest),
            ),
            None => (None, Some(rest)),
        }
    } else {
        match step::<Sub, Row>(p.grouping, layout, p.pending[0]) {
            Step::Fail(f) => (Some(Err(f)), None),
            Step::Continue(g) => next_of::<Sub, Row>(
                Progress { grouping: g, pending: p.pending.drop_first() },
                layout,
            ),
            Step::Emit(s, g) => (
                Some(Ok(s)),
                Some(Progress { grouping: g, pending: p.pending.drop_first() }),
            ),
        }
    }
}

/// The next item that the records at hand give, and where the reading
/// stands after it; no item where they give none yet, and the subject that
/// is open stays open.
pub open spec fn poll_of<Sub: FromRow, Row: FromRow>(
    p: Progress<Sub::V, Row::V>,
    layout: Layout,
) -> (
    Option<Result<SubjectView<Sub::V, Row::V>, Failure<Sub::ParseError, Row::ParseError>>>,
    Option<Progress<Sub::V, Row::V>>,
)
    decreases p.pending.len(),
{
    if p.pending.len() == 0 {
        (None, Some(p))
    } else {
        match step::<Sub, Row>(p.grouping, layout, p.pending[0]) {
            Step::Fail(f) => (Some(Err(f)), None),
            Step::Continue(g) => poll_of::<Sub, Row>(
                Progress { grouping: g, pending: p.pending.drop_first() },
                layout,
            ),
            Step::Emit(s, g) => (
                Some(Ok(s)),
                Some(Progress { grouping: g, pending: p.pending.drop_first() }),
            ),
        }
    }
}

/// The next item of the sequence is the item that the records at hand
/// give; where they give none, every record is read, and the end of the
/// table closes the subject that is open.
pub proof fn lemma_next_is_poll<Sub: FromRow, Row: FromRow>(
    p: Progress<Sub::V, Row::V>,
    layout: Layout,
)
    ensures
        match poll_of::<Sub, Row>(p, layout) {
            (None, after) => after matches Some(q) && q.pending.len() == 0 && next_of::<Sub, Row>(
                p,
                layout,
            ) == next_of::<Sub, Row>(q, layout),
            (Some(item), after) => next_of::<Sub, Row>(p, layout) == (Some(item), after),
        },
    decreases p.pending.len(),
{
    if p.pending.len() > 0 {
        match step::<Sub, Row>(p.grouping, layout, p.pending[0]) {
            Step::Fail(f) => {},
            Step::Continue(g) => {
                lemma_next_is_poll::<Sub, Row>(
                    Progress { grouping: g, pending: p.pending.drop_first() },
                    layout,
                );
            },
            Step::Emit(s, g) => {},
        }
    }
}

/// The records as mathematics sees them.
pub open spec fn records_view(records: Seq<Result<Vec<String>, csv::Error>>) -> Seq<Record> {
    records.map_values(
        |r: Result<Vec<String>, csv::Error>|
            match r {
                Ok(cells) => Ok(strings_view(cells@)),
                Err(e) => Err(e),
            },
    )
}

/// What an item of the sequence is to mathematics.
pub open spec fn item_view<Sub: FromRow, Row: FromRow>(
    item: Option<Result<Subject<Sub, Row>, ReadError<Sub::ParseError, Row::ParseError>>>,
) -> Option<Result<SubjectView<Sub::V, Row::V>, Failure<Sub::ParseError, Row::ParseError>>> {
    match item {
        None => None,
        Some(Ok(s)) => Some(Ok(s@)),
        Some(Err(e)) => Some(Err(e@)),
    }
}

/// The sequence of the subjects of a table, read record by record.
pub struct IterSubjects<Sub, Row> {
    csv: std::collections::VecDeque<Result<Vec<String>, csv::Error>>,
    ix_name: usize,
    cols_sub: Columns<Sub>,
    cols_row: Columns<Row>,
    closed_subjects: vstd::hash_set::StringHashSet,
    current_subject: Option<Subject<Sub, Row>>,
    alternatives: Vec<String>,
    failed: bool,
}

impl<Sub: FromRow, Row: FromRow> IterSubjects<Sub, Row> {
    /// Which columns of the table hold what.
    pub closed spec fn layout(&self) -> Layout {
        Layout { ix_name: self.ix_name, cols_sub: self.cols_sub@, cols_row: self.cols_row@ }
    }

    /// Where the reading stands; `None` after a failure.
    pub closed spec fn progress(&self) -> Option<Progress<Sub::V, Row::V>> {
        if self.failed {
            None
        } else {
            Some(
                Progress {
                    grouping: Grouping {
                        table: strings_view(self.alternatives@),
                        closed: self.closed_subjects@,
                        current: match self.current_subject {
                            None => None,
                            Some(s) => Some(
                                Group {
                                    name: s.name@,
                                    data: s.data@,
                                    rows: s.rows@.map_values(|r: Row| r@),
                                },
                            ),
                        },
                    },
                    pending: records_view(self.csv@),
                },
            )
        }
    }
}

/// The cells of the columns `indices` of a row, or the first of them that
/// the row lacks.
fn gather<'a>(row: &'a Vec<String>, indices: &Vec<usize>) -> (r: Result<Vec<&'a str>, usize>)
    ensures
        match r {
            Ok(cells) => first_short(row@.len(), indices@, 0) is None && strs_view(cells@)
                == project(strings_view(row@), indices@),
            Err(i) => first_short(row@.len(), indices@, 0) == Some(i),
        },
{
    let mut cells: Vec<&'a str> = Vec::new();
    let mut k: usize = 0;
    while k < indices.len()
        invariant
            k <= indices.len(),
            cells@.len() == k,
            first_short(row@.len(), indices@, 0) == first_short(row@.len(), indices@, k as int),
            forall|j: int| 0 <= j < k ==> indices@[j] < row@.len() && cells@[j]@ == row@[indices@[j] as int]@,
        decreases indices.len() - k,
    {
        let i = indices[k];
        if i >= row.len() {
            return Err(i);
        }
        cells.push(row[i].as_str());
        k += 1;
    }
    assert(strs_view(cells@) =~= project(strings_view(row@), indices@));
    Ok(cells)
}

/// A copy of the table of labels.
fn copy_table(table: &Vec<String>) -> (r: Vec<String>)
    ensures
        strings_view(r@) == strings_view(table@),
{
    let mut r: Vec<String> = Vec::new();
    let mut i: usize = 0;
    while i < table.len()
        invariant
            i <= table.len(),
            r@.len() == i,
            forall|j: int| 0 <= j < i ==> r@[j]@ == table@[j]@,
        decreases table.len() - i,
    {
        r.push(table[i].clone());
        i += 1;
    }
    assert(strings_view(r@) =~= strings_view(table@));
    r
}

impl<Sub: FromRow, Row: FromRow> IterSubjects<Sub, Row> {
    /// Hands one more record of the table to the sequence; after a failure
    /// it is dropped.
    pub fn push_record(&mut self, record: Result<Vec<String>, csv::Error>)
        ensures
            final(self).layout() == old(self).layout(),
            match old(self).progress() {
                None => final(self).progress() is None,
                Some(p) => final(self).progress() == Some(
                    Progress {
                        grouping: p.grouping,
                        pending: p.pending.push(
                            match record {
                                Ok(cells) => Ok(strings_view(cells@)),
                                Err(e) => Err(e),
                            },
                        ),
                    },
                ),
            },
    {
        if !self.failed {
            let ghost before = records_view(self.csv@);
            self.csv.push_back(record);
            assert(records_view(self.csv@) =~= before.push(
                match record {
                    Ok(cells) => Ok(strings_view(cells@)),
                    Err(e) => Err(e),
                },
            ));
        }
    }

    /// The next subject of the table, or why there is none: `None` at the
    /// end of the table and after a failure. The records at hand are the
    /// whole table: where they are read without giving a subject, the
    /// subject that is open is given.
    pub fn next(&mut self) -> (item: Option<
        Result<Subject<Sub, Row>, ReadError<Sub::ParseError, Row::ParseError>>,
    >)
        ensures
            final(self).layout() == old(self).layout(),
            match old(self).progress() {
                None => item is None && final(self).progress() is None,
                Some(p) => (item_view::<Sub, Row>(item), final(self).progress()) == next_of::<
                    Sub,
                    Row,
                >(p, old(self).layout()),
            },
    {
        if self.failed {
            return None;
        }
        proof {
            lemma_next_is_poll::<Sub, Row>(self.progress()->0, self.layout());
        }
        match self.poll() {
            Some(item) => Some(item),
            None => {
                let last = self.current_subject.take();
                match last {
                    Some(mut subj) => {
                        subj.alternatives = copy_table(&self.alternatives);
                        Some(Ok(subj))
                    },
                    None => None,
                }
            },
        }
    }

    /// The next subject that the records at hand give, or why they give
    /// none: `None` where every record at hand is read, and after a failure.
    /// The subject that is open stays open for the records to come.
    pub fn poll(&mut self) -> (item: Option<
        Result<Subject<Sub, Row>, ReadError<Sub::ParseError, Row::ParseError>>,
    >)
        ensures
            final(self).layout() == old(self).layout(),
            match old(self).progress() {
                None => item is None && final(self).progress() is None,
                Some(p) => (item_view::<Sub, Row>(item), final(self).progress()) == poll_of::<
                    Sub,
                    Row,
                >(p, old(self).layout()),
            },
    {
        if self.failed {
            return None;
        }
        let ghost layout = self.layout();
        let ghost start = self.progress()->0;
        loop
            invariant
                !self.failed,
                old(self).progress() == Some(start),
                old(self).layout() == layout,
                self.layout() == layout,
                poll_of::<Sub, Row>(self.progress()->0, layout) == poll_of::<Sub, Row>(
                    start,
                    layout,
                ),
            decreases self.csv@.len(),
        {
            let ghost p = self.progress()->0;
            let record = self.csv.pop_front();
            proof {
                if record is Some {
                    assert(records_view(self.csv@) =~= p.pending.drop_first());
                    assert(p.pending[0] == match record->0 {
                        Ok(cells) => Ok(strings_view(cells@)),
                        Err(e) => Err(e),
                    });
                }
            }
            let csv_row = match record {
                None => {
                    assert(records_view(self.csv@) =~= p.pending);
                    return None;
                },
                Some(Err(e)) => {
                    self.failed = true;
                    return Some(Err(ReadError::Csv(e)));
                },
                Some(Ok(row)) => row,
            };
            let ghost cells = strings_view(csv_row@);
            if self.ix_name >= csv_row.len() {
                self.failed = true;
                return Some(Err(ReadError::RowTooShort(self.ix_name)));
            }
            let sub_cells = match gather(&csv_row, &self.cols_sub.indices) {
                Err(i) => {
                    self.failed = true;
                    return Some(Err(ReadError::RowTooShort(i)));
                },
                Ok(cells) => cells,
            };
            let sub_data = match Sub::from_row(&mut self.alternatives, sub_cells.as_slice()) {
                Err(e) => {
                    self.failed = true;
                    return Some(Err(ReadError::ParseSub(e)));
                },
                Ok(data) => data,
            };
            let row_cells = match gather(&csv_row, &self.cols_row.indices) {
                Err(i) => {
                    self.failed = true;
                    return Some(Err(ReadError::RowTooShort(i)));
                },
                Ok(cells) => cells,
            };
            let row = match Row::from_row(&mut self.alternatives, row_cells.as_slice()) {
                Err(e) => {
                    self.failed = true;
                    return Some(Err(ReadError::ParseRow(e)));
                },
                Ok(row) => row,
            };
            let ghost d = decode::<Sub, Row>(p.grouping.table, layout, cells)->Ok_0;
            assert(decode::<Sub, Row>(p.grouping.table, layout, cells) is Ok);
            assert(d.data == sub_data@ && d.row == row@);
            assert(d.name == csv_row@[self.ix_name as int]@);
            assert(d.table == strings_view(self.alternatives@));
            let mut rows: Vec<Row> = Vec::new();
            rows.push(row);
            assert(rows@.map_values(|r: Row| r@) =~= seq![d.row]);
            let open = self.current_subject.take();
            match open {
                None => {
                    self.current_subject = Some(
                        Subject {
                            name: csv_row[self.ix_name].clone(),
                            alternatives: Vec::new(),
                            data: sub_data,
                            rows,
                        },
                    );
                },
                Some(mut subj) => {
                    if same_text(csv_row[self.ix_name].as_str(), subj.name.as_str()) {
                        if !sub_data.same(&subj.data) {
                            self.failed = true;
                            return Some(Err(ReadError::SubjectInconsistent(subj.name)));
                        }
                        let ghost before = subj.rows@;
                        let row = rows.pop().unwrap();
                        subj.rows.push(row);
                        assert(subj.rows@.map_values(|r: Row| r@) =~= before.map_values(
                            |r: Row| r@,
                        ).push(d.row));
                        self.current_subject = Some(subj);
                    } else {
                        if self.closed_subjects.contains(csv_row[self.ix_name].as_str()) {
                            self.failed = true;
                            return Some(
                                Err(ReadError::SubjectDiscontiguous(csv_row[self.ix_name].clone())),
                            );
                        }
                        self.closed_subjects.insert(subj.name.clone());
                        self.current_subject = Some(
                            Subject {
                                name: csv_row[self.ix_name].clone(),
                                alternatives: Vec::new(),
                                data: sub_data,
                                rows,
                            },
                        );
                        subj.alternatives = copy_table(&self.alternatives);
                        return Some(Ok(subj));
                    }
                },
            }
        }
    }
}


/// The first record of the text of a table, as `csv::Reader` reads it with
/// its own settings: the names of the columns.
pub uninterp spec fn csv_header(data: Seq<u8>) -> Result<Seq<Seq<char>>, csv::Error>;

/// The records of the text of a table after the first, as `csv::Reader`
/// reads them with its own settings: each its cells, or why it has none.
pub uninterp spec fn csv_records(data: Seq<u8>) -> Seq<Record>;

/// What reading the header gave, as mathematics sees it.
pub open spec fn header_view(header: Result<Vec<String>, csv::Error>) -> Result<
    Seq<Seq<char>>,
    csv::Error,
> {
    match header {
        Ok(names) => Ok(strings_view(names@)),
        Err(e) => Err(e),
    }
}

/// `csv::Reader::from_reader` on the bytes, then `Reader::headers`: the
/// cells of the first record, or the reader's error.
#[verifier::external_body]
fn read_header(data: &[u8]) -> (header: Result<Vec<String>, csv::Error>)
    ensures
        header_view(header) == csv_header(data@),
{
    let mut reader = csv::Reader::from_reader(data);
    match reader.headers() {
        Ok(record) => Ok(record.iter().map(String::from).collect()),
        Err(e) => Err(e),
    }
}

/// `csv::Reader::from_reader` on the bytes, then `Reader::headers`, whose
/// result is left aside here, then `Reader::into_records` to its end: for
/// each record after the first its cells, or the reader's error.
#[verifier::external_body]
fn read_records(data: &[u8]) -> (records: std::collections::VecDeque<
    Result<Vec<String>, csv::Error>,
>)
    ensures
        records_view(records@) == csv_records(data@),
{
    let mut reader = csv::Reader::from_reader(data);
    let _ = reader.headers();
    let mut records = std::collections::VecDeque::new();
    for record in reader.into_records() {
        records.push_back(
            match record {
                Ok(cells) => Ok(cells.iter().map(String::from).collect()),
                Err(e) => Err(e),
            },
        );
    }
    records
}

/// The first of the names `sub`, from place `from` on, that `row` holds
/// too.
pub open spec fn first_shared(sub: Seq<Seq<char>>, row: Seq<Seq<char>>, from: int) -> Option<int>
    decreases sub.len() - from,
{
    if from < 0 || from >= sub.len() {
        None
    } else if row.contains(sub[from]) {
        Some(from)
    } else {
        first_shared(sub, row, from + 1)
    }
}

/// The two lists share no name exactly where there is no first shared
/// name; where there is one, no name before it is shared.
pub proof fn lemma_first_shared(sub: Seq<Seq<char>>, row: Seq<Seq<char>>, from: int)
    requires
        0 <= from,
    ensures
        match first_shared(sub, row, from) {
            None => forall|k: int| from <= k < sub.len() ==> !row.contains(sub[k]),
            Some(i) => from <= i < sub.len() && row.contains(sub[i]) && forall|k: int|
                from <= k < i ==> !row.contains(sub[k]),
        },
    decreases sub.len() - from,
{
    if from < sub.len() && !row.contains(sub[from]) {
        lemma_first_shared(sub, row, from + 1);
    }
}

/// The columns among the first `n` whose name is one of `names`, in the
/// order of the table.
pub open spec fn columns_upto(header: Seq<Seq<char>>, names: Seq<Seq<char>>, n: int) -> Seq<usize>
    decreases n,
{
    if n <= 0 {
        Seq::empty()
    } else {
        let before = columns_upto(header, names, n - 1);
        if names.contains(header[n - 1]) {
            before.push((n - 1) as usize)
        } else {
            before
        }
    }
}

/// Which columns hold what, given the header of the table, the names of
/// the columns that say something of the subject, those of the row's own
/// data, and the name of the column of subject names. A name that is
/// claimed both for the subject and for the row is refused, whatever the
/// header holds.
pub open spec fn layout_of<SubE, RowE>(
    header: Seq<Seq<char>>,
    sub: Seq<Seq<char>>,
    row: Seq<Seq<char>>,
    name: Seq<char>,
) -> Result<Layout, Failure<SubE, RowE>> {
    if let Some(i) = first_shared(sub, row, 0) {
        Err(Failure::ColumnOverlap(sub[i]))
    } else if position(header, name) == header.len() {
        Err(Failure::NoNameColumn(name))
    } else {
        Ok(
            Layout {
                ix_name: position(header, name) as usize,
                cols_sub: columns_upto(header, sub, header.len() as int),
                cols_row: columns_upto(header, row, header.len() as int),
            },
        )
    }
}

/// Where reading starts: nothing read, every record pending.
pub open spec fn start_of<S, R>(records: Seq<Record>) -> Progress<S, R> {
    Progress {
        grouping: Grouping { table: Seq::empty(), closed: Set::empty(), current: None },
        pending: records,
    }
}

/// Whether `name` is one of `names`.
fn is_among(names: &Vec<&'static str>, name: &str) -> (r: bool)
    ensures
        r == strs_view(names@).contains(name@),
{
    let mut i: usize = 0;
    while i < names.len()
        invariant
            i <= names.len(),
            forall|k: int| 0 <= k < i ==> strs_view(names@)[k] != name@,
        decreases names.len() - i,
    {
        if same_text(names[i], name) {
            assert(strs_view(names@)[i as int] == name@);
            return true;
        }
        i += 1;
    }
    false
}

/// The first of the names `sub` that `row` holds too.
fn claimed_twice(sub: &Vec<&'static str>, row: &Vec<&'static str>) -> (r: Option<usize>)
    ensures
        match r {
            Some(i) => i < sub@.len() && first_shared(strs_view(sub@), strs_view(row@), 0)
                == Some(i as int),
            None => first_shared(strs_view(sub@), strs_view(row@), 0) is None,
        },
{
    let mut i: usize = 0;
    while i < sub.len()
        invariant
            i <= sub.len(),
            first_shared(strs_view(sub@), strs_view(row@), 0) == first_shared(
                strs_view(sub@),
                strs_view(row@),
                i as int,
            ),
        decreases sub.len() - i,
    {
        assert(strs_view(sub@)[i as int] == sub@[i as int]@);
        if is_among(row, sub[i]) {
            return Some(i);
        }
        i += 1;
    }
    None
}

/// The first column name that is claimed both for the subject and for the
/// row, if one is.
pub fn column_overlap<Sub: FromRow, Row: FromRow>() -> (r: Option<String>)
    ensures
        match first_shared(Sub::columns(), Row::columns(), 0) {
            Some(i) => r matches Some(name) && name@ == Sub::columns()[i],
            None => r is None,
        },
{
    let sub_names = Sub::column_names();
    let row_names = Row::column_names();
    match claimed_twice(&sub_names, &row_names) {
        Some(i) => {
            assert(strs_view(sub_names@)[i as int] == sub_names@[i as int]@);
            Some(String::from_str(sub_names[i]))
        },
        None => None,
    }
}

/// Reads the text of a table and prepares the sequence of its subjects.
/// No column name may be claimed both for the subject and for the row,
/// which is looked at before anything is read, and the table must hold the
/// column of subject names.
pub fn read_subjects<Sub: FromRow, Row: FromRow>(data: &[u8], subj_name_column: &str) -> (r:
    Result<IterSubjects<Sub, Row>, ReadError<Sub::ParseError, Row::ParseError>>)
    ensures
        match first_shared(Sub::columns(), Row::columns(), 0) {
            Some(i) => r matches Err(x) && x@ == Failure::<
                Sub::ParseError,
                Row::ParseError,
            >::ColumnOverlap(Sub::columns()[i]),
            None => match csv_header(data@) {
                Err(e) => r matches Err(x) && x@ == Failure::<
                    Sub::ParseError,
                    Row::ParseError,
                >::Csv(e),
                Ok(header) => match layout_of::<Sub::ParseError, Row::ParseError>(
                    header,
                    Sub::columns(),
                    Row::columns(),
                    subj_name_column@,
                ) {
                    Err(f) => r matches Err(x) && x@ == f,
                    Ok(layout) => r matches Ok(it) && it.layout() == layout && it.progress()
                        == Some(start_of::<Sub::V, Row::V>(csv_records(data@))),
                },
            },
        },
{
    if let Some(name) = column_overlap::<Sub, Row>() {
        return Err(ReadError::ColumnOverlap(name));
    }
    let header = match read_header(data) {
        Err(e) => {
            return Err(ReadError::Csv(e));
        },
        Ok(header) => header,
    };
    subjects_of(&header, read_records(data), subj_name_column)
}

/// Prepares the sequence of the subjects of a table from its header and
/// its records. No column name may be claimed both for the subject and for
/// the row, and the header must hold the column of subject names.
pub fn subjects_of<Sub: FromRow, Row: FromRow>(
    header: &Vec<String>,
    records: std::collections::VecDeque<Result<Vec<String>, csv::Error>>,
    subj_name_column: &str,
) -> (r: Result<IterSubjects<Sub, Row>, ReadError<Sub::ParseError, Row::ParseError>>)
    ensures
        match layout_of::<Sub::ParseError, Row::ParseError>(
            strings_view(header@),
            Sub::columns(),
            Row::columns(),
            subj_name_column@,
        ) {
            Err(f) => r matches Err(x) && x@ == f,
            Ok(layout) => r matches Ok(it) && it.layout() == layout && it.progress() == Some(
                start_of::<Sub::V, Row::V>(records_view(records@)),
            ),
        },
{
    let ghost names = strings_view(header@);
    let sub_names = Sub::column_names();
    let row_names = Row::column_names();
    if let Some(i) = claimed_twice(&sub_names, &row_names) {
        assert(strs_view(sub_names@)[i as int] == sub_names@[i as int]@);
        return Err(ReadError::ColumnOverlap(String::from_str(sub_names[i])));
    }
    let mut ixs_sub: Vec<usize> = Vec::new();
    let mut ixs_row: Vec<usize> = Vec::new();
    let mut ix: usize = 0;
    while ix < header.len()
        invariant
            ix <= header.len(),
            names == strings_view(header@),
            strs_view(sub_names@) == Sub::columns(),
            strs_view(row_names@) == Row::columns(),
            ixs_sub@ == columns_upto(names, Sub::columns(), ix as int),
            ixs_row@ == columns_upto(names, Row::columns(), ix as int),
        decreases header.len() - ix,
    {
        let hdr = header[ix].as_str();
        assert(names[ix as int] == hdr@);
        if is_among(&sub_names, hdr) {
            ixs_sub.push(ix);
        }
        if is_among(&row_names, hdr) {
            ixs_row.push(ix);
        }
        ix += 1;
    }
    let mut ix_name: usize = 0;
    while ix_name < header.len() && !same_text(header[ix_name].as_str(), subj_name_column)
        invariant
            ix_name <= header.len(),
            names == strings_view(header@),
            forall|k: int| 0 <= k < ix_name ==> names[k] != subj_name_column@,
        decreases header.len() - ix_name,
    {
        assert(names[ix_name as int] == header@[ix_name as int]@);
        ix_name += 1;
    }
    proof {
        if ix_name < header.len() {
            assert(names[ix_name as int] == header@[ix_name as int]@);
        }
        lemma_position(names, subj_name_column@, ix_name as int);
    }
    if ix_name == header.len() {
        return Err(ReadError::NoNameColumn(String::from_str(subj_name_column)));
    }
    let alternatives: Vec<String> = Vec::new();
    assert(strings_view(alternatives@) =~= Seq::<Seq<char>>::empty());
    Ok(
        IterSubjects {
            csv: records,
            ix_name,
            cols_sub: Columns { indices: ixs_sub, phantom: core::marker::PhantomData },
            cols_row: Columns { indices: ixs_row, phantom: core::marker::PhantomData },
            closed_subjects: vstd::hash_set::StringHashSet::new(),
            current_subject: None,
            alternatives,
            failed: false,
        },
    )
}

} // verus!
