//! Subjects and their observed choices.

use crate::alt::Alt;
use crate::alt_set::AltSet;
use crate::csv::{FromCell, FromRow};
use crate::text::{strings_view, strs_view};
use vstd::prelude::*;

verus! {

/// One observation: the menu offered, the default alternative if there was
/// one, and what was chosen from the menu; an empty choice is a deferral.
#[derive(Debug, Clone, PartialEq, Eq)]
pub struct ChoiceRow {
    pub menu: AltSet,
    pub default: Option<Alt>,
    pub choice: AltSet,
}

/// An observation as mathematics sees it.
pub struct ChoiceRowView {
    pub menu: Set<u32>,
    pub default: Option<u32>,
    pub choice: Set<u32>,
}

impl View for ChoiceRow {
    type V = ChoiceRowView;

    open spec fn view(&self) -> ChoiceRowView {
        ChoiceRowView {
            menu: self.menu@,
            default: match self.default {
                None => None,
                Some(a) => Some(a.0),
            },
            choice: self.choice@,
        }
    }
}

/// One subject: its name, the labels of the alternatives, and its
/// observations in the order they were made.
#[derive(Debug, Clone, PartialEq, Eq)]
pub struct Subject {
    pub name: String,
    pub alternatives: Vec<String>,
    pub choices: Vec<ChoiceRow>,
}

/// Why the cells of a row are no observation.
#[derive(Debug, Clone, PartialEq, Eq)]
pub enum ChoiceRowError {
    /// The row has this many of the three cells.
    CellCount(usize),
}

impl FromRow for ChoiceRow {
    type ParseError = ChoiceRowError;

    open spec fn columns() -> Seq<Seq<char>> {
        seq!["menu"@, "default"@, "choice"@]
    }

    fn column_names() -> (names: Vec<&'static str>) {
        let mut names: Vec<&'static str> = Vec::new();
        names.push("menu");
        names.push("default");
        names.push("choice");
        assert(strs_view(names@) =~= seq!["menu"@, "default"@, "choice"@]);
        names
    }

    open spec fn row_value(alternatives: Seq<Seq<char>>, row: Seq<Seq<char>>) -> Result<
        ChoiceRowView,
        ChoiceRowError,
    > {
        if row.len() != 3 {
            Err(ChoiceRowError::CellCount(row.len() as usize))
        } else {
            let table1 = <AltSet as FromCell>::cell_table(alternatives, row[0]);
            let table2 = <Option<Alt> as FromCell>::cell_table(table1, row[1]);
            Ok(
                ChoiceRowView {
                    menu: <AltSet as FromCell>::cell_value(alternatives, row[0])->Ok_0,
                    default: match <Option<Alt> as FromCell>::cell_value(table1, row[1])->Ok_0 {
                        None => None,
                        Some(a) => Some(a.0),
                    },
                    choice: <AltSet as FromCell>::cell_value(table2, row[2])->Ok_0,
                },
            )
        }
    }

    proof fn lemma_row_table(alternatives: Seq<Seq<char>>, row: Seq<Seq<char>>) {
        if row.len() == 3 {
            let table1 = <AltSet as FromCell>::cell_table(alternatives, row[0]);
            let table2 = <Option<Alt> as FromCell>::cell_table(table1, row[1]);
            let table3 = <AltSet as FromCell>::cell_table(table2, row[2]);
            <AltSet as FromCell>::lemma_cell_table(alternatives, row[0]);
            <Option<Alt> as FromCell>::lemma_cell_table(table1, row[1]);
            <AltSet as FromCell>::lemma_cell_table(table2, row[2]);
            assert(alternatives =~= table3.subrange(0, alternatives.len() as int));
        } else {
            assert(alternatives =~= alternatives.subrange(0, alternatives.len() as int));
        }
    }

    open spec fn row_table(alternatives: Seq<Seq<char>>, row: Seq<Seq<char>>) -> Seq<Seq<char>> {
        if row.len() != 3 {
            alternatives
        } else {
            let table1 = <AltSet as FromCell>::cell_table(alternatives, row[0]);
            let table2 = <Option<Alt> as FromCell>::cell_table(table1, row[1]);
            <AltSet as FromCell>::cell_table(table2, row[2])
        }
    }

    /// The observation that three cells hold: the menu, the default and
    /// the choice, in this order.
    fn from_row(alternatives: &mut Vec<String>, row: &[&str]) -> (res: Result<
        ChoiceRow,
        ChoiceRowError,
    >)
    {
        proof {
            Self::lemma_row_table(strings_view(alternatives@), strs_view(row@));
        }
        if row.len() != 3 {
            return Err(ChoiceRowError::CellCount(row.len()));
        }
        assert(strs_view(row@)[0] == row@[0]@);
        assert(strs_view(row@)[1] == row@[1]@);
        assert(strs_view(row@)[2] == row@[2]@);
        let menu = match AltSet::from_cell(alternatives, row[0]) {
            Ok(menu) => menu,
            Err(_) => AltSet::empty(),
        };
        let default = match <Option<Alt>>::from_cell(alternatives, row[1]) {
            Ok(default) => default,
            Err(_) => None,
        };
        let choice = match AltSet::from_cell(alternatives, row[2]) {
            Ok(choice) => choice,
            Err(_) => AltSet::empty(),
        };
        Ok(ChoiceRow { menu, default, choice })
    }

    fn same(&self, other: &ChoiceRow) -> (r: bool) {
        let same_default = match (self.default, other.default) {
            (None, None) => true,
            (Some(a), Some(b)) => a.0 == b.0,
            _ => false,
        };
        same_default && self.menu.same(&other.menu) && self.choice.same(&other.choice)
    }
}

} // verus!
