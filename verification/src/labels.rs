//! The table of labels: every alternative is known by the place of its
//! label, and a label that is met for the first time gets the next place.

use crate::alt::Alt;
use crate::alt_set::AltSet;
use crate::csv::{FromCell, ToCell};
use crate::text::{pieces, same_text, split, strings_view, strs_view, trim, trimmed};
use vstd::prelude::*;
use vstd::string::StringExecFns;

verus! {

/// Whether `i` is where `label` first stands in the table, or the table's
/// length where the table lacks it.
pub open spec fn is_position(table: Seq<Seq<char>>, label: Seq<char>, i: int) -> bool {
    &&& 0 <= i <= table.len()
    &&& forall|k: int| 0 <= k < i ==> table[k] != label
    &&& i < table.len() ==> table[i] == label
}

/// Where `label` first stands in the table, or the table's length where the
/// table lacks it.
pub open spec fn position(table: Seq<Seq<char>>, label: Seq<char>) -> int {
    choose|i: int| is_position(table, label, i)
}

/// A label has one position.
pub proof fn lemma_position(table: Seq<Seq<char>>, label: Seq<char>, i: int)
    requires
        is_position(table, label, i),
    ensures
        position(table, label) == i,
{
    let p = position(table, label);
    assert(is_position(table, label, p));
    if p < i {
        assert(table[p] == label);
    } else if i < p {
        assert(table[i] == label);
    }
}

/// Among the first `n` labels of the table `label` has a first place, or
/// none of them is `label`.
proof fn first_place(table: Seq<Seq<char>>, label: Seq<char>, n: int) -> (i: int)
    requires
        0 <= n <= table.len(),
    ensures
        0 <= i <= n,
        forall|k: int| 0 <= k < i ==> table[k] != label,
        i < n ==> table[i] == label,
    decreases n,
{
    if n == 0 {
        0
    } else {
        let i = first_place(table, label, n - 1);
        if i < n - 1 || table[n - 1] == label {
            i
        } else {
            n
        }
    }
}

/// Every label has its position in every table.
pub proof fn lemma_position_is(table: Seq<Seq<char>>, label: Seq<char>)
    ensures
        is_position(table, label, position(table, label)),
{
    let i = first_place(table, label, table.len() as int);
    assert(is_position(table, label, i));
}

/// The table once it holds `label`: a label that it lacks is added at the end.
pub open spec fn with_label(table: Seq<Seq<char>>, label: Seq<char>) -> Seq<Seq<char>> {
    if position(table, label) == table.len() {
        table.push(label)
    } else {
        table
    }
}

/// The id that `label` has once the table holds it: its position, cut to 32 bits.
pub open spec fn id_of(table: Seq<Seq<char>>, label: Seq<char>) -> u32 {
    position(table, label) as u32
}

/// The table after the labels have been looked up one after the other.
pub open spec fn table_after(table: Seq<Seq<char>>, labels: Seq<Seq<char>>) -> Seq<Seq<char>>
    decreases labels.len(),
{
    if labels.len() == 0 {
        table
    } else {
        with_label(table_after(table, labels.drop_last()), labels.last())
    }
}

/// The ids that the labels get when they are looked up one after the other.
pub open spec fn ids_of(table: Seq<Seq<char>>, labels: Seq<Seq<char>>) -> Set<u32>
    decreases labels.len(),
{
    if labels.len() == 0 {
        Set::empty()
    } else {
        ids_of(table, labels.drop_last()).insert(
            id_of(table_after(table, labels.drop_last()), labels.last()),
        )
    }
}

/// Looking a label up leaves the table as it was and adds to its end.
pub proof fn lemma_with_label_grows(table: Seq<Seq<char>>, label: Seq<char>)
    ensures
        table.is_prefix_of(with_label(table, label)),
{
    assert(table =~= with_label(table, label).subrange(0, table.len() as int));
}

/// Looking labels up leaves the table as it was and adds to its end.
pub proof fn lemma_table_grows(table: Seq<Seq<char>>, labels: Seq<Seq<char>>)
    ensures
        table.is_prefix_of(table_after(table, labels)),
    decreases labels.len(),
{
    if labels.len() > 0 {
        let before = table_after(table, labels.drop_last());
        lemma_table_grows(table, labels.drop_last());
        lemma_with_label_grows(before, labels.last());
        assert(table =~= with_label(before, labels.last()).subrange(0, table.len() as int));
    } else {
        assert(table =~= table.subrange(0, table.len() as int));
    }
}

/// A label keeps its position when another label is looked up.
pub proof fn lemma_position_stays(table: Seq<Seq<char>>, label: Seq<char>, other: Seq<char>)
    requires
        position(table, label) < table.len(),
    ensures
        position(with_label(table, other), label) == position(table, label),
{
    lemma_position_is(table, label);
    lemma_position(with_label(table, other), label, position(table, label));
}

/// After a label was looked up the table holds it, at the position that
/// is its id.
pub proof fn lemma_label_is_held(table: Seq<Seq<char>>, label: Seq<char>)
    ensures
        position(table, label) < with_label(table, label).len(),
        with_label(table, label)[position(table, label)] == label,
        position(with_label(table, label), label) == position(table, label),
{
    lemma_position_is(table, label);
    lemma_position(with_label(table, label), label, position(table, label));
}

/// The labels that a cell names: none where the cell holds white space
/// only, else what stands between its commas, each without the white space
/// around it.
pub open spec fn labels_of(cell: Seq<char>) -> Seq<Seq<char>> {
    if trimmed(cell).len() == 0 {
        Seq::empty()
    } else {
        pieces(trimmed(cell), ',').map_values(|p: Seq<char>| trimmed(p))
    }
}

/// The labels joined by commas.
pub open spec fn joined(labels: Seq<Seq<char>>) -> Seq<char>
    decreases labels.len(),
{
    if labels.len() == 0 {
        Seq::empty()
    } else if labels.len() == 1 {
        labels[0]
    } else {
        joined(labels.drop_last()) + seq![','] + labels.last()
    }
}

/// Looks `label` up in the table, adding it at the end where the table
/// lacks it, and gives its id.
pub fn intern(alternatives: &mut Vec<String>, label: &str) -> (alt: Alt)
    ensures
        strings_view(final(alternatives)@) == with_label(strings_view(old(alternatives)@), label@),
        alt.0 == id_of(strings_view(old(alternatives)@), label@),
{
    let ghost table = strings_view(alternatives@);
    let mut i: usize = 0;
    while i < alternatives.len()
        invariant
            i <= alternatives.len(),
            table == strings_view(alternatives@),
            alternatives@ == old(alternatives)@,
            forall|k: int| 0 <= k < i ==> table[k] != label@,
        decreases alternatives.len() - i,
    {
        if same_text(alternatives[i].as_str(), label) {
            proof {
                assert(table[i as int] == alternatives@[i as int]@);
                lemma_position(table, label@, i as int);
            }
            return Alt(#[verifier::truncate] (i as u32));
        }
        assert(table[i as int] == alternatives@[i as int]@);
        i += 1;
    }
    proof {
        lemma_position(table, label@, i as int);
    }
    alternatives.push(String::from_str(label));
    assert(strings_view(alternatives@) =~= table.push(label@));
    Alt(#[verifier::truncate] (i as u32))
}

impl FromCell for AltSet {
    type ParseError = void::Void;

    open spec fn cell_value(alternatives: Seq<Seq<char>>, cell: Seq<char>) -> Result<
        Set<u32>,
        void::Void,
    > {
        Ok(ids_of(alternatives, labels_of(cell)))
    }

    proof fn lemma_cell_table(alternatives: Seq<Seq<char>>, cell: Seq<char>) {
        lemma_table_grows(alternatives, labels_of(cell));
    }

    open spec fn cell_table(alternatives: Seq<Seq<char>>, cell: Seq<char>) -> Seq<Seq<char>> {
        table_after(alternatives, labels_of(cell))
    }

    /// The set of the alternatives that the cell names, separated by commas.
    fn from_cell(alternatives: &mut Vec<String>, cell: &str) -> (res: Result<AltSet, void::Void>)
        ensures
            res is Ok,
    {
        let ghost table = strings_view(alternatives@);
        proof {
            Self::lemma_cell_table(table, cell@);
        }
        let ctrim = trim(cell);
        if ctrim.is_empty() {
            return Ok(AltSet::empty());
        }
        let parts = split(ctrim, ',');
        let ghost labels = labels_of(cell@);
        let mut set = AltSet::empty();
        let mut i: usize = 0;
        assert(labels.take(0) =~= Seq::<Seq<char>>::empty());
        while i < parts.len()
            invariant
                i <= parts.len(),
                labels.len() == parts.len(),
                strs_view(parts@) == pieces(trimmed(cell@), ','),
                labels == pieces(trimmed(cell@), ',').map_values(|p: Seq<char>| trimmed(p)),
                strings_view(alternatives@) == table_after(table, labels.take(i as int)),
                set@ == ids_of(table, labels.take(i as int)),
            decreases parts.len() - i,
        {
            let label = trim(parts[i]);
            assert(label@ == labels[i as int]) by {
                assert(strs_view(parts@)[i as int] == parts@[i as int]@);
            }
            let alt = intern(alternatives, label);
            set.insert(alt);
            assert(labels.take(i + 1).drop_last() =~= labels.take(i as int));
            assert(labels.take(i + 1).last() == labels[i as int]);
            i += 1;
        }
        assert(labels.take(i as int) =~= labels);
        Ok(set)
    }
}

impl FromCell for Option<Alt> {
    type ParseError = void::Void;

    open spec fn cell_value(alternatives: Seq<Seq<char>>, cell: Seq<char>) -> Result<
        Option<Alt>,
        void::Void,
    > {
        if trimmed(cell).len() == 0 {
            Ok(None)
        } else {
            Ok(Some(Alt(id_of(alternatives, trimmed(cell)))))
        }
    }

    proof fn lemma_cell_table(alternatives: Seq<Seq<char>>, cell: Seq<char>) {
        lemma_with_label_grows(alternatives, trimmed(cell));
    }

    open spec fn cell_table(alternatives: Seq<Seq<char>>, cell: Seq<char>) -> Seq<Seq<char>> {
        if trimmed(cell).len() == 0 {
            alternatives
        } else {
            with_label(alternatives, trimmed(cell))
        }
    }

    /// The alternative that the cell names, or none where the cell holds
    /// white space only.
    fn from_cell(alternatives: &mut Vec<String>, cell: &str) -> (res: Result<
        Option<Alt>,
        void::Void,
    >)
        ensures
            res is Ok,
    {
        proof {
            Self::lemma_cell_table(strings_view(alternatives@), cell@);
        }
        let ctrim = trim(cell);
        if ctrim.is_empty() {
            Ok(None)
        } else {
            Ok(Some(intern(alternatives, ctrim)))
        }
    }
}

impl ToCell for AltSet {
    open spec fn writable(&self, alternatives: Seq<Seq<char>>) -> bool {
        forall|a: u32| self@.contains(a) ==> a < alternatives.len()
    }

    open spec fn cell_text(&self, alternatives: Seq<Seq<char>>) -> Seq<char> {
        joined(self.listing().map_values(|a: u32| alternatives[a as int]))
    }

    /// The labels of the members, smallest id first, joined by commas.
    fn to_cell(&self, alternatives: &[String]) -> (cell: String) {
        let alts = self.to_vec();
        let ghost table = strings_view(alternatives@);
        let ghost labels = self.listing().map_values(|a: u32| table[a as int]);
        let mut cell = String::new();
        let mut i: usize = 0;
        assert(labels.take(0) =~= Seq::<Seq<char>>::empty());
        while i < alts.len()
            invariant
                i <= alts.len(),
                alts@.len() == self.listing().len(),
                forall|k: int| 0 <= k < alts@.len() ==> alts@[k].0 == self.listing()[k],
                self.listing().to_set() == self@,
                self.writable(table),
                table == strings_view(alternatives@),
                labels == self.listing().map_values(|a: u32| table[a as int]),
                cell@ == joined(labels.take(i as int)),
            decreases alts.len() - i,
        {
            let Alt(a) = alts[i];
            assert(self@.contains(a)) by {
                assert(self.listing()[i as int] == a);
            }
            if i > 0 {
                cell.append(",");
                proof {
                    reveal_strlit(",");
                    assert(","@ =~= seq![',']);
                }
            }
            assert(table[a as int] == alternatives@[a as int]@);
            cell.append(alternatives[a as usize].as_str());
            proof {
                let now = labels.take(i + 1);
                assert(now.drop_last() =~= labels.take(i as int));
                assert(now.last() == table[a as int]);
                if i == 0 {
                    assert(cell@ =~= now[0]);
                }
            }
            i += 1;
        }
        assert(labels.take(i as int) =~= labels);
        cell
    }
}

} // verus!
