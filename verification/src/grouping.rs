//! What holds of every table: the subjects that come out of it, and the
//! tables that are refused.

use crate::csv::{
    decode, item_view, next_of, regroup, start_of, step, Decoded, Failure, FromRow, Grouping,
    IterSubjects, Layout, Progress, ReadError, Record, Step, Subject, SubjectView,
};
use vstd::prelude::*;

verus! {

/// All that reading gives: the subjects in the order they are given, and
/// the failure that ended the reading, if one did.
pub struct Run<S, R, SubE, RowE> {
    pub subjects: Seq<SubjectView<S, R>>,
    pub failure: Option<Failure<SubE, RowE>>,
}

/// All that reading gives from where it stands.
pub open spec fn run_of<Sub: FromRow, Row: FromRow>(
    p: Progress<Sub::V, Row::V>,
    layout: Layout,
) -> Run<Sub::V, Row::V, Sub::ParseError, Row::ParseError>
    decreases p.pending.len(),
{
    if p.pending.len() == 0 {
        match p.grouping.current {
            Some(cur) => Run {
                subjects: seq![
                    SubjectView {
                        name: cur.name,
                        alternatives: p.grouping.table,
                        data: cur.data,
                        rows: cur.rows,
                    },
                ],
                failure: None,
            },
            None => Run { subjects: Seq::empty(), failure: None },
        }
    } else {
        match step::<Sub, Row>(p.grouping, layout, p.pending[0]) {
            Step::Fail(f) => Run { subjects: Seq::empty(), failure: Some(f) },
            Step::Continue(g) => run_of::<Sub, Row>(
                Progress { grouping: g, pending: p.pending.drop_first() },
                layout,
            ),
            Step::Emit(s, g) => {
                let rest = run_of::<Sub, Row>(
                    Progress { grouping: g, pending: p.pending.drop_first() },
                    layout,
                );
                Run { subjects: seq![s] + rest.subjects, failure: rest.failure }
            },
        }
    }
}

/// The items of the sequence, one after the other, are all that reading
/// gives: the next item is the first subject or the failure, and what
/// follows it is all that reading gives from where it then stands.
pub proof fn lemma_run_is_sequence<Sub: FromRow, Row: FromRow>(
    p: Progress<Sub::V, Row::V>,
    layout: Layout,
)
    ensures
        match next_of::<Sub, Row>(p, layout) {
            (None, _) => run_of::<Sub, Row>(p, layout) == (Run::<Sub::V, Row::V, Sub::ParseError, Row::ParseError> {
                subjects: Seq::empty(),
                failure: None,
            }),
            (Some(Err(f)), after) => after is None && run_of::<Sub, Row>(p, layout) == (Run::<
                Sub::V,
                Row::V,
                Sub::ParseError,
                Row::ParseError,
            > { subjects: Seq::empty(), failure: Some(f) }),
            (Some(Ok(s)), after) => after matches Some(q) && run_of::<Sub, Row>(p, layout) == (
            Run::<Sub::V, Row::V, Sub::ParseError, Row::ParseError> {
                subjects: seq![s] + run_of::<Sub, Row>(q, layout).subjects,
                failure: run_of::<Sub, Row>(q, layout).failure,
            }),
        },
    decreases p.pending.len(),
{
    if p.pending.len() == 0 {
        if let Some(cur) = p.grouping.current {
            let s = SubjectView {
                name: cur.name,
                alternatives: p.grouping.table,
                data: cur.data,
                rows: cur.rows,
            };
            assert(seq![s] + Seq::<SubjectView<Sub::V, Row::V>>::empty() =~= seq![s]);
        }
    } else {
        match step::<Sub, Row>(p.grouping, layout, p.pending[0]) {
            Step::Fail(f) => {},
            Step::Continue(g) => {
                lemma_run_is_sequence::<Sub, Row>(
                    Progress { grouping: g, pending: p.pending.drop_first() },
                    layout,
                );
            },
            Step::Emit(s, g) => {},
        }
    }
}

/// How much is left to read: every pending record counts, and the subject
/// that is open.
pub open spec fn left<S, R>(p: Progress<S, R>) -> nat {
    2 * p.pending.len() + if p.grouping.current is Some {
        1nat
    } else {
        0nat
    }
}

/// Every subject that is given leaves less to read.
pub proof fn lemma_next_advances<Sub: FromRow, Row: FromRow>(
    p: Progress<Sub::V, Row::V>,
    layout: Layout,
)
    ensures
        next_of::<Sub, Row>(p, layout).0 is Some ==> (next_of::<Sub, Row>(p, layout).1 matches Some(
            q,
        ) ==> left(q) < left(p)),
    decreases p.pending.len(),
{
    if p.pending.len() > 0 {
        match step::<Sub, Row>(p.grouping, layout, p.pending[0]) {
            Step::Fail(f) => {},
            Step::Continue(g) => {
                lemma_next_advances::<Sub, Row>(
                    Progress { grouping: g, pending: p.pending.drop_first() },
                    layout,
                );
            },
            Step::Emit(s, g) => {},
        }
    }
}

/// The subjects as mathematics sees them.
pub open spec fn subjects_view<Sub: FromRow, Row: FromRow>(
    subjects: Seq<Subject<Sub, Row>>,
) -> Seq<SubjectView<Sub::V, Row::V>> {
    subjects.map_values(|s: Subject<Sub, Row>| s@)
}

impl<Sub: FromRow, Row: FromRow> IterSubjects<Sub, Row> {
    /// Reads to the end: all subjects that the sequence still gives, and
    /// the failure that ended it, if one did.
    pub fn read_all(self) -> (r: (
        Vec<Subject<Sub, Row>>,
        Option<ReadError<Sub::ParseError, Row::ParseError>>,
    ))
        ensures
            match self.progress() {
                None => r.0@.len() == 0 && r.1 is None,
                Some(p) => subjects_view(r.0@) == run_of::<Sub, Row>(p, self.layout()).subjects
                    && match r.1 {
                    None => run_of::<Sub, Row>(p, self.layout()).failure is None,
                    Some(e) => run_of::<Sub, Row>(p, self.layout()).failure == Some(e@),
                },
            },
    {
        let ghost layout = self.layout();
        let ghost start = self.progress();
        let mut it = self;
        let mut subjects: Vec<Subject<Sub, Row>> = Vec::new();
        assert(subjects_view(subjects@) =~= Seq::<SubjectView<Sub::V, Row::V>>::empty());
        proof {
            if start is Some {
                let all = run_of::<Sub, Row>(start->0, layout).subjects;
                assert(Seq::<SubjectView<Sub::V, Row::V>>::empty() + all =~= all);
            }
        }
        loop
            invariant
                start == self.progress(),
                layout == self.layout(),
                it.layout() == layout,
                start is None ==> it.progress() is None && subjects@.len() == 0,
                start matches Some(p) ==> it.progress() matches Some(q) && run_of::<Sub, Row>(
                    p,
                    layout,
                ).subjects == subjects_view(subjects@) + run_of::<Sub, Row>(q, layout).subjects
                    && run_of::<Sub, Row>(p, layout).failure == run_of::<Sub, Row>(
                    q,
                    layout,
                ).failure,
            decreases
                    if it.progress() is Some {
                        left(it.progress()->0)
                    } else {
                        0
                    },
        {
            let ghost before = subjects_view(subjects@);
            proof {
                if it.progress() is Some {
                    lemma_run_is_sequence::<Sub, Row>(it.progress()->0, layout);
                    lemma_next_advances::<Sub, Row>(it.progress()->0, layout);
                }
            }
            match it.next() {
                None => {
                    assert(before + Seq::<SubjectView<Sub::V, Row::V>>::empty() =~= before);
                    return (subjects, None);
                },
                Some(Err(e)) => {
                    assert(before + Seq::<SubjectView<Sub::V, Row::V>>::empty() =~= before);
                    return (subjects, Some(e));
                },
                Some(Ok(s)) => {
                    let ghost later = run_of::<Sub, Row>(it.progress()->0, layout).subjects;
                    subjects.push(s);
                    assert(subjects_view(subjects@) =~= before.push(s@));
                    assert(before + (seq![s@] + later) =~= before.push(s@) + later);
                },
            }
        }
    }
}

/// The name of the subject that a record belongs to, where it holds one.
pub open spec fn key_of(layout: Layout, record: Record) -> Option<Seq<char>> {
    match record {
        Ok(cells) => if layout.ix_name < cells.len() {
            Some(cells[layout.ix_name as int])
        } else {
            None
        },
        Err(_) => None,
    }
}

/// The records decoded one after the other, up to the first that does not
/// decode.
pub open spec fn decoded_of<Sub: FromRow, Row: FromRow>(
    table: Seq<Seq<char>>,
    layout: Layout,
    records: Seq<Record>,
) -> Seq<Decoded<Sub::V, Row::V>>
    decreases records.len(),
{
    if records.len() == 0 {
        Seq::empty()
    } else {
        match records[0] {
            Err(_) => Seq::empty(),
            Ok(cells) => match decode::<Sub, Row>(table, layout, cells) {
                Err(_) => Seq::empty(),
                Ok(d) => seq![d] + decoded_of::<Sub, Row>(d.table, layout, records.drop_first()),
            },
        }
    }
}

/// What holds of the grouping wherever reading stands: the subject that is
/// open is not closed, and no subject is closed before one was open.
pub open spec fn reachable<S, R>(g: Grouping<S, R>) -> bool {
    match g.current {
        None => g.closed == Set::<Seq<char>>::empty(),
        Some(cur) => !g.closed.contains(cur.name),
    }
}

/// Whether the rows of each subject stand together and agree on what they
/// say of the subject, and none belongs to a closed subject or comes after
/// a row of another subject while belonging to the open one.
pub open spec fn orderly<S, R>(g: Grouping<S, R>, ds: Seq<Decoded<S, R>>) -> bool {
    &&& forall|q: int| 0 <= q < ds.len() ==> !g.closed.contains((#[trigger] ds[q]).name)
    &&& forall|a: int, b: int, c: int|
        #![trigger ds[a], ds[b], ds[c]]
        0 <= a < b < c < ds.len() && ds[a].name == ds[c].name ==> ds[b].name == ds[a].name
    &&& forall|a: int, b: int|
        #![trigger ds[a], ds[b]]
        0 <= a < b < ds.len() && ds[a].name == ds[b].name ==> ds[a].data == ds[b].data
    &&& g.current matches Some(cur) ==> forall|a: int, b: int|
        #![trigger ds[a], ds[b]]
        0 <= a <= b < ds.len() && ds[b].name == cur.name ==> ds[a].name == cur.name && ds[b].data
            == cur.data
}

/// Where reading ends without a failure, every record was decoded, and
/// the rows are orderly.
pub proof fn lemma_success<Sub: FromRow, Row: FromRow>(
    p: Progress<Sub::V, Row::V>,
    layout: Layout,
)
    requires
        reachable(p.grouping),
        run_of::<Sub, Row>(p, layout).failure is None,
    ensures
        decoded_of::<Sub, Row>(p.grouping.table, layout, p.pending).len() == p.pending.len(),
        forall|q: int|
            0 <= q < p.pending.len() ==> key_of(layout, #[trigger] p.pending[q]) == Some(
                decoded_of::<Sub, Row>(p.grouping.table, layout, p.pending)[q].name,
            ),
        orderly(p.grouping, decoded_of::<Sub, Row>(p.grouping.table, layout, p.pending)),
    decreases p.pending.len(),
{
    let g = p.grouping;
    let ds = decoded_of::<Sub, Row>(g.table, layout, p.pending);
    if p.pending.len() > 0 {
        let rest = p.pending.drop_first();
        let cells = p.pending[0]->Ok_0;
        let d = decode::<Sub, Row>(g.table, layout, cells)->Ok_0;
        let after = match regroup::<Sub::V, Row::V, Sub::ParseError, Row::ParseError>(g, d) {
            Step::Continue(after) => after,
            Step::Emit(_, after) => after,
            Step::Fail(_) => g,
        };
        let q = Progress { grouping: after, pending: rest };
        assert(after.table == d.table);
        assert(reachable(after));
        lemma_success::<Sub, Row>(q, layout);
        let es = decoded_of::<Sub, Row>(d.table, layout, rest);
        assert(ds == seq![d] + es);
        assert(ds[0] == d);
        assert forall|i: int| 1 <= i < ds.len() implies #[trigger] ds[i] == es[i - 1] by {}
        assert forall|i: int| 0 <= i < p.pending.len() implies key_of(
            layout,
            #[trigger] p.pending[i],
        ) == Some(ds[i].name) by {
            if i > 0 {
                assert(p.pending[i] == rest[i - 1]);
                assert(ds[i] == es[i - 1]);
            }
        }
        assert forall|i: int| 0 <= i < ds.len() implies !g.closed.contains(
            (#[trigger] ds[i]).name,
        ) by {
            if i > 0 {
                assert(ds[i] == es[i - 1]);
                assert(!after.closed.contains(es[i - 1].name));
            }
        }
        assert forall|a: int, b: int, c: int|
            #![trigger ds[a], ds[b], ds[c]]
            0 <= a < b < c < ds.len() && ds[a].name == ds[c].name implies ds[b].name
            == ds[a].name by {
            assert(ds[b] == es[b - 1] && ds[c] == es[c - 1]);
            if a > 0 {
                assert(ds[a] == es[a - 1]);
            } else {
                assert(after.current->0.name == d.name);
                assert(es[0].name == d.name && es[c - 1].data == after.current->0.data) by {
                    assert(0 <= 0 <= c - 1 < es.len());
                    let _ = es[0];
                }
                assert(es[b - 1].name == d.name) by {
                    assert(0 <= b - 1 <= c - 1 < es.len());
                }
            }
        }
        assert forall|a: int, b: int|
            #![trigger ds[a], ds[b]]
            0 <= a < b < ds.len() && ds[a].name == ds[b].name implies ds[a].data
            == ds[b].data by {
            assert(ds[b] == es[b - 1]);
            if a > 0 {
                assert(ds[a] == es[a - 1]);
            } else {
                assert(after.current->0.name == d.name);
                assert(after.current->0.data == d.data);
                assert(es[b - 1].data == after.current->0.data) by {
                    assert(0 <= b - 1 <= b - 1 < es.len());
                }
            }
        }
        if let Some(cur) = g.current {
            assert forall|a: int, b: int|
                #![trigger ds[a], ds[b]]
                0 <= a <= b < ds.len() && ds[b].name == cur.name implies ds[a].name == cur.name
                && ds[b].data == cur.data by {
                if d.name == cur.name {
                    assert(after.current->0.name == cur.name);
                    assert(after.current->0.data == cur.data);
                    assert(d.data == cur.data);
                    if b > 0 {
                        assert(ds[b] == es[b - 1]);
                        assert(0 <= b - 1 <= b - 1 < es.len());
                        if a > 0 {
                            assert(ds[a] == es[a - 1]);
                            assert(0 <= a - 1 <= b - 1 < es.len());
                        }
                    }
                } else {
                    assert(after.closed.contains(cur.name));
                    if b > 0 {
                        assert(ds[b] == es[b - 1]);
                        assert(!after.closed.contains(es[b - 1].name));
                    }
                }
            }
        }
    }
}

/// No subject comes out of a table twice: the subjects that reading gives
/// have names that differ from one another.
pub proof fn lemma_names_distinct<Sub: FromRow, Row: FromRow>(
    p: Progress<Sub::V, Row::V>,
    layout: Layout,
)
    requires
        reachable(p.grouping),
    ensures
        forall|a: int|
            0 <= a < run_of::<Sub, Row>(p, layout).subjects.len() ==> !p.grouping.closed.contains(
                (#[trigger] run_of::<Sub, Row>(p, layout).subjects[a]).name,
            ),
        forall|a: int, b: int|
            0 <= a < b < run_of::<Sub, Row>(p, layout).subjects.len() ==> (
            #[trigger] run_of::<Sub, Row>(p, layout).subjects[a]).name != (#[trigger] run_of::<
                Sub,
                Row,
            >(p, layout).subjects[b]).name,
    decreases p.pending.len(),
{
    let g = p.grouping;
    let subjects = run_of::<Sub, Row>(p, layout).subjects;
    if p.pending.len() > 0 {
        let rest = p.pending.drop_first();
        match step::<Sub, Row>(g, layout, p.pending[0]) {
            Step::Fail(_) => {},
            Step::Continue(after) => {
                lemma_names_distinct::<Sub, Row>(
                    Progress { grouping: after, pending: rest },
                    layout,
                );
            },
            Step::Emit(s, after) => {
                let q = Progress { grouping: after, pending: rest };
                lemma_names_distinct::<Sub, Row>(q, layout);
                let later = run_of::<Sub, Row>(q, layout).subjects;
                assert(subjects == seq![s] + later);
                assert(after.closed.contains(s.name));
                assert forall|a: int| 0 <= a < subjects.len() implies !g.closed.contains(
                    (#[trigger] subjects[a]).name,
                ) by {
                    if a > 0 {
                        assert(subjects[a] == later[a - 1]);
                        assert(!after.closed.contains(later[a - 1].name));
                    }
                }
                assert forall|a: int, b: int| 0 <= a < b < subjects.len() implies (
                #[trigger] subjects[a]).name != (#[trigger] subjects[b]).name by {
                    assert(subjects[b] == later[b - 1]);
                    assert(!after.closed.contains(later[b - 1].name));
                    if a > 0 {
                        assert(subjects[a] == later[a - 1]);
                    }
                }
            },
        }
    }
}

/// A table in which the rows of one subject stand in two places, with a
/// row of another subject between them, is refused: reading it ends in a
/// failure.
pub proof fn lemma_split_subject_fails<Sub: FromRow, Row: FromRow>(
    records: Seq<Record>,
    layout: Layout,
    i: int,
    j: int,
    k: int,
)
    requires
        0 <= i < j < k < records.len(),
        key_of(layout, records[i]) is Some,
        key_of(layout, records[k]) == key_of(layout, records[i]),
        key_of(layout, records[j]) != key_of(layout, records[i]),
    ensures
        run_of::<Sub, Row>(start_of(records), layout).failure is Some,
{
    let p = start_of::<Sub::V, Row::V>(records);
    if run_of::<Sub, Row>(p, layout).failure is None {
        lemma_success::<Sub, Row>(p, layout);
        let ds = decoded_of::<Sub, Row>(p.grouping.table, layout, records);
        assert(key_of(layout, p.pending[i]) == Some(ds[i].name));
        assert(key_of(layout, p.pending[j]) == Some(ds[j].name));
        assert(key_of(layout, p.pending[k]) == Some(ds[k].name));
    }
}

/// A table in which two rows of one subject disagree on what they say of
/// the subject is refused: reading it ends in a failure.
pub proof fn lemma_disagreeing_rows_fail<Sub: FromRow, Row: FromRow>(
    records: Seq<Record>,
    layout: Layout,
    a: int,
    b: int,
)
    requires
        0 <= a < b < decoded_of::<Sub, Row>(Seq::empty(), layout, records).len(),
        decoded_of::<Sub, Row>(Seq::empty(), layout, records)[a].name == decoded_of::<Sub, Row>(
            Seq::empty(),
            layout,
            records,
        )[b].name,
        decoded_of::<Sub, Row>(Seq::empty(), layout, records)[a].data != decoded_of::<Sub, Row>(
            Seq::empty(),
            layout,
            records,
        )[b].data,
    ensures
        run_of::<Sub, Row>(start_of(records), layout).failure is Some,
{
    let p = start_of::<Sub::V, Row::V>(records);
    if run_of::<Sub, Row>(p, layout).failure is None {
        lemma_success::<Sub, Row>(p, layout);
        let ds = decoded_of::<Sub, Row>(p.grouping.table, layout, records);
        let _ = ds[a];
        let _ = ds[b];
    }
}

/// A table that begins a second table begins every table that the second
/// begins.
pub proof fn lemma_prefix_transitive(a: Seq<Seq<char>>, b: Seq<Seq<char>>, c: Seq<Seq<char>>)
    requires
        a.is_prefix_of(b),
        b.is_prefix_of(c),
    ensures
        a.is_prefix_of(c),
{
    assert(a =~= c.subrange(0, a.len() as int));
}

/// Decoding a row keeps the labels of the table where they are, and adds
/// at its end.
pub proof fn lemma_decode_grows<Sub: FromRow, Row: FromRow>(
    table: Seq<Seq<char>>,
    layout: Layout,
    cells: Seq<Seq<char>>,
)
    ensures
        decode::<Sub, Row>(table, layout, cells) matches Ok(d) ==> table.is_prefix_of(d.table),
{
    if decode::<Sub, Row>(table, layout, cells) is Ok {
        let sub_cells = crate::csv::project(cells, layout.cols_sub);
        let row_cells = crate::csv::project(cells, layout.cols_row);
        let table1 = Sub::row_table(table, sub_cells);
        Sub::lemma_row_table(table, sub_cells);
        Row::lemma_row_table(table1, row_cells);
        lemma_prefix_transitive(table, table1, Row::row_table(table1, row_cells));
    }
}

/// The table of labels only grows while a table is read: the table that
/// comes with a subject begins with the table that reading started from,
/// and with the table of every subject given before.
pub proof fn lemma_tables_grow<Sub: FromRow, Row: FromRow>(
    p: Progress<Sub::V, Row::V>,
    layout: Layout,
)
    ensures
        forall|a: int|
            0 <= a < run_of::<Sub, Row>(p, layout).subjects.len() ==> p.grouping.table.is_prefix_of(
                (#[trigger] run_of::<Sub, Row>(p, layout).subjects[a]).alternatives,
            ),
        forall|a: int, b: int|
            0 <= a < b < run_of::<Sub, Row>(p, layout).subjects.len() ==> (
            #[trigger] run_of::<Sub, Row>(p, layout).subjects[a]).alternatives.is_prefix_of(
                (#[trigger] run_of::<Sub, Row>(p, layout).subjects[b]).alternatives,
            ),
    decreases p.pending.len(),
{
    let g = p.grouping;
    let subjects = run_of::<Sub, Row>(p, layout).subjects;
    if p.pending.len() == 0 {
        assert(g.table =~= g.table.subrange(0, g.table.len() as int));
    } else {
        let rest = p.pending.drop_first();
        match step::<Sub, Row>(g, layout, p.pending[0]) {
            Step::Fail(_) => {},
            Step::Continue(after) => {
                let q = Progress { grouping: after, pending: rest };
                lemma_decode_grows::<Sub, Row>(g.table, layout, p.pending[0]->Ok_0);
                lemma_tables_grow::<Sub, Row>(q, layout);
                assert forall|a: int| 0 <= a < subjects.len() implies g.table.is_prefix_of(
                    (#[trigger] subjects[a]).alternatives,
                ) by {
                    lemma_prefix_transitive(g.table, after.table, subjects[a].alternatives);
                }
            },
            Step::Emit(s, after) => {
                let q = Progress { grouping: after, pending: rest };
                lemma_decode_grows::<Sub, Row>(g.table, layout, p.pending[0]->Ok_0);
                lemma_tables_grow::<Sub, Row>(q, layout);
                let later = run_of::<Sub, Row>(q, layout).subjects;
                assert(subjects == seq![s] + later);
                assert(s.alternatives == after.table);
                assert forall|a: int| 0 <= a < subjects.len() implies g.table.is_prefix_of(
                    (#[trigger] subjects[a]).alternatives,
                ) by {
                    if a > 0 {
                        assert(subjects[a] == later[a - 1]);
                        lemma_prefix_transitive(g.table, after.table, later[a - 1].alternatives);
                    }
                }
                assert forall|a: int, b: int| 0 <= a < b < subjects.len() implies (
                #[trigger] subjects[a]).alternatives.is_prefix_of(
                    (#[trigger] subjects[b]).alternatives,
                ) by {
                    assert(subjects[b] == later[b - 1]);
                    if a > 0 {
                        assert(subjects[a] == later[a - 1]);
                    }
                }
            },
        }
    }
}

/// Whether the rows `i` and `k` belong to the subject `name`, the row `j`
/// between them to another, and every row up to `k` to some subject.
pub open spec fn split_at(
    layout: Layout,
    records: Seq<Record>,
    name: Seq<char>,
    i: int,
    j: int,
    k: int,
) -> bool {
    &&& 0 <= i < j < k < records.len()
    &&& key_of(layout, records[i]) == Some(name)
    &&& key_of(layout, records[j]) is Some
    &&& key_of(layout, records[j]) != Some(name)
    &&& key_of(layout, records[k]) == Some(name)
}

/// Where a failure for a subject that is not in one piece ends the
/// reading: the row at which it does, and the rows that show the split.
proof fn discontiguous_witness<Sub: FromRow, Row: FromRow>(
    p: Progress<Sub::V, Row::V>,
    layout: Layout,
    name: Seq<char>,
) -> (w: (int, int, int))
    requires
        run_of::<Sub, Row>(p, layout).failure == Some(
            Failure::<Sub::ParseError, Row::ParseError>::SubjectDiscontiguous(name),
        ),
    ensures
        0 <= w.2 < p.pending.len(),
        key_of(layout, p.pending[w.2]) == Some(name),
        forall|q: int| 0 <= q < w.2 ==> key_of(layout, #[trigger] p.pending[q]) is Some,
        p.grouping.closed.contains(name) || (p.grouping.current matches Some(cur) && cur.name
            == name && 0 <= w.1 < w.2 && key_of(layout, p.pending[w.1]) != Some(name)) || (0
            <= w.0 < w.1 < w.2 && key_of(layout, p.pending[w.0]) == Some(name) && key_of(
            layout,
            p.pending[w.1],
        ) != Some(name)),
    decreases p.pending.len(),
{
    let g = p.grouping;
    let rest = p.pending.drop_first();
    match step::<Sub, Row>(g, layout, p.pending[0]) {
        Step::Fail(f) => (0, 0, 0),
        Step::Continue(after) => {
            let d = decode::<Sub, Row>(g.table, layout, p.pending[0]->Ok_0)->Ok_0;
            let q = Progress { grouping: after, pending: rest };
            let (i, j, k) = discontiguous_witness::<Sub, Row>(q, layout, name);
            assert forall|x: int| 0 <= x < k + 1 implies key_of(
                layout,
                #[trigger] p.pending[x],
            ) is Some by {
                if x > 0 {
                    assert(p.pending[x] == rest[x - 1]);
                }
            }
            assert(p.pending[k + 1] == rest[k]);
            if after.closed.contains(name) {
                (0, 0, k + 1)
            } else if after.current->0.name == name && 0 <= j < k && key_of(layout, rest[j])
                != Some(name) {
                assert(p.pending[j + 1] == rest[j]);
                (0, j + 1, k + 1)
            } else {
                assert(p.pending[j + 1] == rest[j]);
                assert(p.pending[i + 1] == rest[i]);
                (i + 1, j + 1, k + 1)
            }
        },
        Step::Emit(s, after) => {
            let d = decode::<Sub, Row>(g.table, layout, p.pending[0]->Ok_0)->Ok_0;
            let q = Progress { grouping: after, pending: rest };
            let (i, j, k) = discontiguous_witness::<Sub, Row>(q, layout, name);
            assert forall|x: int| 0 <= x < k + 1 implies key_of(
                layout,
                #[trigger] p.pending[x],
            ) is Some by {
                if x > 0 {
                    assert(p.pending[x] == rest[x - 1]);
                }
            }
            assert(p.pending[k + 1] == rest[k]);
            if after.closed.contains(name) {
                (0, 0, k + 1)
            } else if after.current->0.name == name && 0 <= j < k && key_of(layout, rest[j])
                != Some(name) {
                assert(p.pending[j + 1] == rest[j]);
                (0, j + 1, k + 1)
            } else {
                assert(p.pending[j + 1] == rest[j]);
                assert(p.pending[i + 1] == rest[i]);
                (i + 1, j + 1, k + 1)
            }
        },
    }
}

/// A table is refused for a subject that is not in one piece only where
/// rows of that subject stand in two places with a row of another subject
/// between them.
pub proof fn lemma_discontiguous_means_split<Sub: FromRow, Row: FromRow>(
    records: Seq<Record>,
    layout: Layout,
    name: Seq<char>,
)
    requires
        run_of::<Sub, Row>(start_of(records), layout).failure == Some(
            Failure::<Sub::ParseError, Row::ParseError>::SubjectDiscontiguous(name),
        ),
    ensures
        exists|i: int, j: int, k: int| #[trigger] split_at(layout, records, name, i, j, k),
{
    let p = start_of::<Sub::V, Row::V>(records);
    let (i, j, k) = discontiguous_witness::<Sub, Row>(p, layout, name);
    assert(key_of(layout, p.pending[j]) is Some);
    assert(split_at(layout, records, name, i, j, k));
}

/// Whether every record decodes, whatever the table of labels, and says
/// `data` of its subject.
pub open spec fn undisturbed<Sub: FromRow, Row: FromRow>(
    layout: Layout,
    records: Seq<Record>,
    data: Sub::V,
) -> bool {
    forall|q: int, table: Seq<Seq<char>>|
        0 <= q < records.len() ==> #[trigger] says::<Sub, Row>(table, layout, records[q], data)
}

/// Whether the record decodes over the table and says `data` of its
/// subject.
pub open spec fn says<Sub: FromRow, Row: FromRow>(
    table: Seq<Seq<char>>,
    layout: Layout,
    record: Record,
    data: Sub::V,
) -> bool {
    &&& record matches Ok(cells)
    &&& decode::<Sub, Row>(table, layout, cells) matches Ok(d)
    &&& d.data == data
}

/// Where every record decodes and all say the same of their subjects,
/// reading can only fail for a subject that is not in one piece.
pub proof fn lemma_undisturbed<Sub: FromRow, Row: FromRow>(
    p: Progress<Sub::V, Row::V>,
    layout: Layout,
    data: Sub::V,
)
    requires
        undisturbed::<Sub, Row>(layout, p.pending, data),
        p.grouping.current matches Some(cur) ==> cur.data == data,
    ensures
        run_of::<Sub, Row>(p, layout).failure matches Some(f) ==> f
            is SubjectDiscontiguous,
    decreases p.pending.len(),
{
    if p.pending.len() > 0 {
        let g = p.grouping;
        let rest = p.pending.drop_first();
        assert(says::<Sub, Row>(g.table, layout, p.pending[0], data));
        assert forall|q: int, table: Seq<Seq<char>>| 0 <= q < rest.len() implies #[trigger] says::<
            Sub,
            Row,
        >(table, layout, rest[q], data) by {
            assert(rest[q] == p.pending[q + 1]);
            assert(says::<Sub, Row>(table, layout, p.pending[q + 1], data));
        }
        match step::<Sub, Row>(g, layout, p.pending[0]) {
            Step::Fail(f) => {},
            Step::Continue(after) => {
                lemma_undisturbed::<Sub, Row>(
                    Progress { grouping: after, pending: rest },
                    layout,
                    data,
                );
            },
            Step::Emit(s, after) => {
                lemma_undisturbed::<Sub, Row>(
                    Progress { grouping: after, pending: rest },
                    layout,
                    data,
                );
            },
        }
    }
}

/// A table in which the rows of one subject stand in two places, with a
/// row of another subject between them, is refused for a subject that is
/// not in one piece, where nothing else is wrong with it: every record
/// decodes, and all say the same of their subjects.
pub proof fn lemma_split_subject_is_discontiguous<Sub: FromRow, Row: FromRow>(
    records: Seq<Record>,
    layout: Layout,
    data: Sub::V,
    i: int,
    j: int,
    k: int,
)
    requires
        0 <= i < j < k < records.len(),
        key_of(layout, records[i]) is Some,
        key_of(layout, records[k]) == key_of(layout, records[i]),
        key_of(layout, records[j]) != key_of(layout, records[i]),
        undisturbed::<Sub, Row>(layout, records, data),
    ensures
        run_of::<Sub, Row>(start_of(records), layout).failure matches Some(f) && f
            is SubjectDiscontiguous,
{
    lemma_split_subject_fails::<Sub, Row>(records, layout, i, j, k);
    lemma_undisturbed::<Sub, Row>(start_of(records), layout, data);
}

/// Where a failure for a subject whose rows disagree ends the reading: the
/// row at which it does, and an earlier row that it disagrees with.
proof fn inconsistent_witness<Sub: FromRow, Row: FromRow>(
    p: Progress<Sub::V, Row::V>,
    layout: Layout,
    name: Seq<char>,
) -> (w: (int, int))
    requires
        run_of::<Sub, Row>(p, layout).failure == Some(
            Failure::<Sub::ParseError, Row::ParseError>::SubjectInconsistent(name),
        ),
    ensures
        0 <= w.1 < decoded_of::<Sub, Row>(p.grouping.table, layout, p.pending).len(),
        decoded_of::<Sub, Row>(p.grouping.table, layout, p.pending)[w.1].name == name,
        (p.grouping.current matches Some(cur) && cur.name == name && decoded_of::<Sub, Row>(
            p.grouping.table,
            layout,
            p.pending,
        )[w.1].data != cur.data) || (0 <= w.0 < w.1 && decoded_of::<Sub, Row>(
            p.grouping.table,
            layout,
            p.pending,
        )[w.0].name == name && decoded_of::<Sub, Row>(
            p.grouping.table,
            layout,
            p.pending,
        )[w.0].data != decoded_of::<Sub, Row>(p.grouping.table, layout, p.pending)[w.1].data),
    decreases p.pending.len(),
{
    let g = p.grouping;
    let rest = p.pending.drop_first();
    let ds = decoded_of::<Sub, Row>(g.table, layout, p.pending);
    match step::<Sub, Row>(g, layout, p.pending[0]) {
        Step::Fail(f) => {
            let d = decode::<Sub, Row>(g.table, layout, p.pending[0]->Ok_0)->Ok_0;
            assert(ds[0] == d);
            (0, 0)
        },
        Step::Continue(after) => {
            let d = decode::<Sub, Row>(g.table, layout, p.pending[0]->Ok_0)->Ok_0;
            let q = Progress { grouping: after, pending: rest };
            let (a, k) = inconsistent_witness::<Sub, Row>(q, layout, name);
            let es = decoded_of::<Sub, Row>(d.table, layout, rest);
            assert(ds == seq![d] + es);
            assert(ds[0] == d && ds[k + 1] == es[k]);
            if after.current->0.name == name && es[k].data != after.current->0.data {
                (0, k + 1)
            } else {
                assert(ds[a + 1] == es[a]);
                (a + 1, k + 1)
            }
        },
        Step::Emit(s, after) => {
            let d = decode::<Sub, Row>(g.table, layout, p.pending[0]->Ok_0)->Ok_0;
            let q = Progress { grouping: after, pending: rest };
            let (a, k) = inconsistent_witness::<Sub, Row>(q, layout, name);
            let es = decoded_of::<Sub, Row>(d.table, layout, rest);
            assert(ds == seq![d] + es);
            assert(ds[0] == d && ds[k + 1] == es[k]);
            if after.current->0.name == name && es[k].data != after.current->0.data {
                (0, k + 1)
            } else {
                assert(ds[a + 1] == es[a]);
                (a + 1, k + 1)
            }
        },
    }
}

/// Whether the decoded rows `a` and `b` belong to the subject `name` and
/// disagree on what they say of it.
pub open spec fn disagree_at<S, R>(ds: Seq<Decoded<S, R>>, name: Seq<char>, a: int, b: int) -> bool {
    &&& 0 <= a < b < ds.len()
    &&& ds[a].name == name
    &&& ds[b].name == name
    &&& ds[a].data != ds[b].data
}

/// A table is refused for a subject whose rows disagree only where two
/// rows of that subject disagree on what they say of it.
pub proof fn lemma_inconsistent_means_disagreement<Sub: FromRow, Row: FromRow>(
    records: Seq<Record>,
    layout: Layout,
    name: Seq<char>,
)
    requires
        run_of::<Sub, Row>(start_of(records), layout).failure == Some(
            Failure::<Sub::ParseError, Row::ParseError>::SubjectInconsistent(name),
        ),
    ensures
        exists|a: int, b: int| #[trigger]
            disagree_at(decoded_of::<Sub, Row>(Seq::empty(), layout, records), name, a, b),
{
    let p = start_of::<Sub::V, Row::V>(records);
    let (a, b) = inconsistent_witness::<Sub, Row>(p, layout, name);
    assert(disagree_at(decoded_of::<Sub, Row>(Seq::empty(), layout, records), name, a, b));
}

} // verus!
