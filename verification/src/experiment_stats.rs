//! Counting what a subject did: how often it chose, how often it deferred.

use crate::rpc_common::{ChoiceRow, Subject};
use vstd::prelude::*;

verus! {

/// The subject to describe.
#[derive(Debug)]
pub struct Request {
    pub subject: Subject,
}

/// The counts for one subject.
#[derive(Debug)]
pub struct Response {
    pub name: String,
    pub observations: usize,
    pub active_choices: usize,
    pub deferrals: usize,
}

/// How many of the observations hold a choice that is not empty.
pub open spec fn active_among(choices: Seq<ChoiceRow>) -> nat
    decreases choices.len(),
{
    if choices.len() == 0 {
        0
    } else {
        active_among(choices.drop_last()) + if choices.last().choice@ != Set::<u32>::empty() {
            1nat
        } else {
            0nat
        }
    }
}

/// How many of the observations hold an empty choice.
pub open spec fn deferred_among(choices: Seq<ChoiceRow>) -> nat
    decreases choices.len(),
{
    if choices.len() == 0 {
        0
    } else {
        deferred_among(choices.drop_last()) + if choices.last().choice@ == Set::<u32>::empty() {
            1nat
        } else {
            0nat
        }
    }
}

/// Every observation is a choice or a deferral.
pub proof fn lemma_counts_add_up(choices: Seq<ChoiceRow>)
    ensures
        active_among(choices) + deferred_among(choices) == choices.len(),
    decreases choices.len(),
{
    if choices.len() > 0 {
        lemma_counts_add_up(choices.drop_last());
    }
}

/// Counts the observations of the subject, its choices and its deferrals.
pub fn run(request: Request) -> (r: Result<Response, void::Void>)
    ensures
        r matches Ok(response) && response.name@ == request.subject.name@
            && response.observations == request.subject.choices@.len()
            && response.active_choices == active_among(request.subject.choices@)
            && response.deferrals == deferred_among(request.subject.choices@),
{
    let Request { subject: Subject { name, alternatives: _, choices } } = request;
    let mut active_choices: usize = 0;
    let mut deferrals: usize = 0;
    let mut i: usize = 0;
    assert(choices@.take(0) =~= Seq::<ChoiceRow>::empty());
    while i < choices.len()
        invariant
            i <= choices.len(),
            active_choices == active_among(choices@.take(i as int)),
            deferrals == deferred_among(choices@.take(i as int)),
            active_choices + deferrals == i,
        decreases choices.len() - i,
    {
        assert(choices@.take(i + 1).drop_last() =~= choices@.take(i as int));
        assert(choices@.take(i + 1).last() == choices@[i as int]);
        if choices[i].choice.is_nonempty() {
            active_choices += 1;
        } else {
            deferrals += 1;
        }
        i += 1;
    }
    assert(choices@.take(i as int) =~= choices@);
    Ok(Response { name, observations: choices.len(), active_choices, deferrals })
}

} // verus!
