//! The catalogue of choice theories.

use vstd::prelude::*;

verus! {

/// What a theory built on a preorder asks of it; `None` leaves it open.
#[derive(Clone, Copy, Debug, PartialEq, Eq, Structural, Hash)]
pub struct PreorderParams {
    pub strict: Option<bool>,
    pub total: Option<bool>,
}

/// A theory of choice, with its parameters.
#[derive(Clone, Copy, Debug, PartialEq, Eq, Structural, Hash)]
pub enum Model {
    PreorderMaximization(PreorderParams),
    Unattractiveness { strict: bool },
    UndominatedChoice { strict: bool },
    PartiallyDominantChoice { fc: bool },
    Overload(PreorderParams),
    TopTwo,
    SequentiallyRationalizableChoice,
    SequentialDomination { strict: bool },
}

/// The place of an open or fixed requirement: open first, then `false`,
/// then `true`.
pub open spec fn flag_rank(flag: Option<bool>) -> int {
    match flag {
        None => 0,
        Some(false) => 1,
        Some(true) => 2,
    }
}

/// The place of the parameters of a preorder among all of them.
pub open spec fn params_rank(params: PreorderParams) -> int {
    3 * flag_rank(params.strict) + flag_rank(params.total)
}

impl Model {
    /// The place of the theory in the catalogue: theories are ordered as
    /// they are listed, and one theory by its parameters.
    pub open spec fn rank(self) -> int {
        match self {
            Model::PreorderMaximization(p) => params_rank(p),
            Model::Unattractiveness { strict } => 9 + if strict { 1int } else { 0int },
            Model::UndominatedChoice { strict } => 11 + if strict { 1int } else { 0int },
            Model::PartiallyDominantChoice { fc } => 13 + if fc { 1int } else { 0int },
            Model::Overload(p) => 15 + params_rank(p),
            Model::TopTwo => 24,
            Model::SequentiallyRationalizableChoice => 25,
            Model::SequentialDomination { strict } => 26 + if strict { 1int } else { 0int },
        }
    }

    /// Two theories with one place are one theory.
    pub proof fn lemma_rank_injective(self, other: Model)
        requires
            self.rank() == other.rank(),
        ensures
            self == other,
    {
    }

    /// The place of the theory in the catalogue.
    pub fn place(&self) -> (r: u8)
        ensures
            r == self.rank(),
    {
        match self {
            Model::PreorderMaximization(p) => params_place(p),
            Model::Unattractiveness { strict } => if *strict { 10 } else { 9 },
            Model::UndominatedChoice { strict } => if *strict { 12 } else { 11 },
            Model::PartiallyDominantChoice { fc } => if *fc { 14 } else { 13 },
            Model::Overload(p) => 15 + params_place(p),
            Model::TopTwo => 24,
            Model::SequentiallyRationalizableChoice => 25,
            Model::SequentialDomination { strict } => if *strict { 27 } else { 26 },
        }
    }

    /// Whether the theory is the maximization of a strict total preference,
    /// the one theory whose instances need nothing precomputed.
    pub fn is_strict_total_maximization(&self) -> (r: bool)
        ensures
            r == (*self == Model::PreorderMaximization(
                PreorderParams { strict: Some(true), total: Some(true) },
            )),
    {
        match self {
            Model::PreorderMaximization(p) => match (p.strict, p.total) {
                (Some(true), Some(true)) => true,
                _ => false,
            },
            _ => false,
        }
    }
}

fn flag_place(flag: Option<bool>) -> (r: u8)
    ensures
        r == flag_rank(flag),
{
    match flag {
        None => 0,
        Some(false) => 1,
        Some(true) => 2,
    }
}

fn params_place(params: &PreorderParams) -> (r: u8)
    ensures
        r == params_rank(*params),
{
    3 * flag_place(params.strict) + flag_place(params.total)
}

} // verus!
