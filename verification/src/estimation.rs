//! Fitting theories to a subject: keeping the instances of least error, and
//! shaping the answer.

use crate::model::{Model, PreorderParams};
use crate::rpc_common::Subject;
use vstd::prelude::*;

verus! {

/// How far two scores may lie apart and still count as tied: a billionth,
/// on the scale of scores, which count trillionths.
pub const TOLERANCE: i64 = 1000;

/// Whether two scores are tied: they differ by no more than the tolerance.
pub open spec fn near(a: int, b: int) -> bool {
    -TOLERANCE <= a - b <= TOLERANCE
}

/// One instance of a theory, as it scored on a subject.
#[derive(Debug, Clone, PartialEq, Eq)]
pub struct InstanceInfo {
    pub model: Model,
    pub entropy: i64,
    pub instance: Vec<u8>,
}

/// A scored instance as mathematics sees it.
pub struct InstanceView {
    pub model: Model,
    pub entropy: int,
    pub instance: Seq<u8>,
}

impl View for InstanceInfo {
    type V = InstanceView;

    open spec fn view(&self) -> InstanceView {
        InstanceView { model: self.model, entropy: self.entropy as int, instance: self.instance@ }
    }
}

/// The scored instances as mathematics sees them.
pub open spec fn instances_view(instances: Seq<InstanceInfo>) -> Seq<InstanceView> {
    instances.map_values(|i: InstanceInfo| i@)
}

impl InstanceInfo {
    /// The instance of `model` that scored `entropy` and is serialized as
    /// `instance`.
    pub fn from(model: Model, entropy: i64, instance: Vec<u8>) -> (r: InstanceInfo)
        ensures
            r@ == (InstanceView { model, entropy: entropy as int, instance: instance@ }),
    {
        InstanceInfo { model, entropy, instance }
    }
}

/// The best seen so far: the lowest score, fixed by the instance that first
/// set it, and the instances kept as tied with it, in the order they came.
pub struct Best {
    pub lowest: Option<int>,
    pub kept: Seq<InstanceView>,
}

impl Best {
    /// Nothing seen.
    pub open spec fn empty() -> Best {
        Best { lowest: None, kept: Seq::empty() }
    }

    /// Instances are kept exactly where a lowest score is.
    pub open spec fn wf(self) -> bool {
        self.lowest is None <==> self.kept.len() == 0
    }

    /// The best after `x` is seen: the first instance is kept; a tied one is
    /// kept too; a strictly better one replaces all that were kept; a
    /// strictly worse one is dropped.
    pub open spec fn add(self, x: InstanceView) -> Best {
        match self.lowest {
            None => Best { lowest: Some(x.entropy), kept: seq![x] },
            Some(lowest) => if near(x.entropy, lowest) {
                Best { lowest: self.lowest, kept: self.kept.push(x) }
            } else if x.entropy < lowest {
                Best { lowest: Some(x.entropy), kept: seq![x] }
            } else {
                self
            },
        }
    }

    /// The best of two: where both have seen something and their lowest
    /// scores are tied, the score of the first and the instances of both;
    /// else the one with the lower score, or the one that has seen anything.
    pub open spec fn combine(self, other: Best) -> Best {
        match (self.lowest, other.lowest) {
            (Some(a), Some(b)) => if near(a, b) {
                Best { lowest: self.lowest, kept: self.kept + other.kept }
            } else if a < b {
                self
            } else {
                other
            },
            (Some(_), None) => self,
            (None, Some(_)) => other,
            (None, None) => self,
        }
    }
}

/// Whether two scores are tied.
fn within_tolerance(a: i64, b: i64) -> (r: bool)
    ensures
        r == near(a as int, b as int),
{
    let d: i128 = a as i128 - b as i128;
    -1000 <= d && d <= 1000
}

/// The instances of least error seen so far.
pub struct BestInstances {
    lowest_entropy: Option<i64>,
    instances: Vec<InstanceInfo>,
}

impl View for BestInstances {
    type V = Best;

    closed spec fn view(&self) -> Best {
        Best {
            lowest: match self.lowest_entropy {
                None => None,
                Some(e) => Some(e as int),
            },
            kept: instances_view(self.instances@),
        }
    }
}

impl BestInstances {
    #[verifier::type_invariant]
    spec fn well_formed(self) -> bool {
        self.lowest_entropy is None <==> self.instances@.len() == 0
    }

    /// With nothing seen.
    pub fn new() -> (r: BestInstances)
        ensures
            r@ == Best::empty(),
            r@.wf(),
    {
        let r = BestInstances { lowest_entropy: None, instances: Vec::new() };
        assert(instances_view(r.instances@) =~= Seq::<InstanceView>::empty());
        r
    }

    /// Sees one instance of `model`, with its score and its serialized form.
    pub fn add_instance(&mut self, model: Model, entropy: i64, instance: Vec<u8>)
        ensures
            final(self)@ == old(self)@.add(
                InstanceView { model, entropy: entropy as int, instance: instance@ },
            ),
            final(self)@.wf(),
    {
        proof {
            use_type_invariant(&*self);
        }
        let ghost before = instances_view(self.instances@);
        let ghost x = InstanceView { model, entropy: entropy as int, instance: instance@ };
        let tied = match self.lowest_entropy {
            Some(lowest) => {
                if within_tolerance(entropy, lowest) {
                    true
                } else if entropy < lowest {
                    false
                } else {
                    return ;
                }
            },
            None => false,
        };
        let mut instances: Vec<InstanceInfo> = Vec::new();
        if tied {
            let mut held = BestInstances::new();
            std::mem::swap(self, &mut held);
            let BestInstances { lowest_entropy, instances: kept } = held;
            instances = kept;
            instances.push(InstanceInfo::from(model, entropy, instance));
            assert(instances_view(instances@) =~= before.push(x));
            *self = BestInstances { lowest_entropy, instances };
        } else {
            instances.push(InstanceInfo::from(model, entropy, instance));
            assert(instances_view(instances@) =~= seq![x]);
            *self = BestInstances { lowest_entropy: Some(entropy), instances };
        }
    }

    /// The instances kept and their lowest score; `None` where nothing was
    /// seen. What was seen left an instance.
    pub fn finish(self) -> (r: Option<(Vec<InstanceInfo>, i64)>)
        ensures
            match r {
                None => self@.lowest is None && self@.kept.len() == 0,
                Some((kept, lowest)) => self@.lowest == Some(lowest as int) && instances_view(
                    kept@,
                ) == self@.kept && kept@.len() > 0,
            },
    {
        proof {
            use_type_invariant(&self);
        }
        let BestInstances { lowest_entropy, instances } = self;
        assert(instances_view(instances@).len() == instances@.len());
        match lowest_entropy {
            Some(lowest) => Some((instances, lowest)),
            None => None,
        }
    }

    /// The best of the two.
    pub fn combine(self, other: BestInstances) -> (r: BestInstances)
        ensures
            r@ == self@.combine(other@),
            r@.wf(),
    {
        proof {
            use_type_invariant(&self);
            use_type_invariant(&other);
        }
        match (self.lowest_entropy, other.lowest_entropy) {
            (Some(se), Some(oe)) => {
                if within_tolerance(se, oe) {
                    let ghost left = instances_view(self.instances@);
                    let ghost right = instances_view(other.instances@);
                    let BestInstances { lowest_entropy, instances } = self;
                    let BestInstances { lowest_entropy: _, instances: more } = other;
                    let mut instances = instances;
                    let mut more = more;
                    instances.append(&mut more);
                    assert(instances_view(instances@) =~= left + right);
                    BestInstances { lowest_entropy, instances }
                } else if se < oe {
                    self
                } else {
                    other
                }
            },
            (Some(_), None) => self,
            (None, Some(_)) => other,
            (None, None) => self,
        }
    }
}

/// Seeing a second instance after a first: one within the tolerance of the
/// first, a difference of exactly the tolerance included, is kept beside
/// it; of two that lie further apart, only the lower is kept.
pub proof fn lemma_tie_tolerance(x: InstanceView, y: InstanceView)
    ensures
        x.entropy - y.entropy == TOLERANCE || y.entropy - x.entropy == TOLERANCE
            ==> Best::empty().add(x).add(y).kept == seq![x, y],
        near(x.entropy, y.entropy) ==> Best::empty().add(x).add(y).kept == seq![x, y],
        y.entropy - x.entropy > TOLERANCE ==> Best::empty().add(x).add(y).kept == seq![x],
        x.entropy - y.entropy > TOLERANCE ==> Best::empty().add(x).add(y).kept == seq![y],
{
    assert(seq![x].push(y) =~= seq![x, y]);
}

/// Whether the two ways of combining three lowest scores part: the ties
/// among them form a chain that one way follows and the other cuts.
pub open spec fn chained(a: int, b: int, c: int) -> bool {
    ||| near(a, b) && near(a, c) && !near(b, c)
    ||| near(a, b) && near(b, c) && !near(a, c)
    ||| near(a, c) && near(b, c) && a < b - TOLERANCE
}

/// Whether combining the three in either grouping gives the same.
pub open spec fn groups_freely(a: Best, b: Best, c: Best) -> bool {
    a.lowest is Some && b.lowest is Some && c.lowest is Some ==> !chained(
        a.lowest->0,
        b.lowest->0,
        c.lowest->0,
    )
}

/// Combining is associative: both groupings of three give the same lowest
/// score and keep the same instances, in the same order, unless the ties
/// among the three lowest scores form a chain.
pub proof fn lemma_combine_associative(a: Best, b: Best, c: Best)
    requires
        groups_freely(a, b, c),
    ensures
        a.combine(b).combine(c) == a.combine(b.combine(c)),
{
    if a.lowest is Some && b.lowest is Some && c.lowest is Some {
        assert((a.kept + b.kept) + c.kept =~= a.kept + (b.kept + c.kept));
    }
}

/// Where the ties among the three lowest scores form a chain, the two
/// groupings keep different numbers of instances.
pub proof fn lemma_combine_chained(a: Best, b: Best, c: Best)
    requires
        a.wf(),
        b.wf(),
        c.wf(),
        !groups_freely(a, b, c),
    ensures
        a.combine(b).combine(c).kept.len() != a.combine(b.combine(c)).kept.len(),
{
}

/// Combining keeps the same instances whichever of the two comes first,
/// and lowest scores that are tied.
pub proof fn lemma_combine_commutes(a: Best, b: Best)
    requires
        a.wf(),
        b.wf(),
    ensures
        a.combine(b).kept.to_multiset() == b.combine(a).kept.to_multiset(),
        a.combine(b).lowest is Some <==> b.combine(a).lowest is Some,
        a.combine(b).lowest is Some ==> near(a.combine(b).lowest->0, b.combine(a).lowest->0),
{
    if a.lowest is Some && b.lowest is Some && near(a.lowest->0, b.lowest->0) {
        vstd::seq_lib::lemma_multiset_commutative(a.kept, b.kept);
        vstd::seq_lib::lemma_multiset_commutative(b.kept, a.kept);
        assert(a.kept.to_multiset().add(b.kept.to_multiset()) =~= b.kept.to_multiset().add(
            a.kept.to_multiset(),
        ));
    } else if a.lowest is None && b.lowest is None {
        assert(a.kept =~= b.kept);
    }
}

/// Seeing and combining keep the invariant.
pub proof fn lemma_best_wf(a: Best, b: Best, x: InstanceView)
    requires
        a.wf(),
        b.wf(),
    ensures
        Best::empty().wf(),
        a.add(x).wf(),
        a.combine(b).wf(),
{
}


/// Whether `a` comes before `b` in the order of byte strings: at the first
/// place where they differ `a` has the smaller byte, or `a` ends there.
pub open spec fn bytes_before(a: Seq<u8>, b: Seq<u8>) -> bool
    decreases a.len(),
{
    if b.len() == 0 {
        false
    } else if a.len() == 0 {
        true
    } else if a[0] != b[0] {
        a[0] < b[0]
    } else {
        bytes_before(a.drop_first(), b.drop_first())
    }
}

/// Whether `x` comes before `y` in an answer: by score, then by the place
/// of the theory in the catalogue, then by the serialized instance.
pub open spec fn before(x: InstanceView, y: InstanceView) -> bool {
    if x.entropy != y.entropy {
        x.entropy < y.entropy
    } else if x.model.rank() != y.model.rank() {
        x.model.rank() < y.model.rank()
    } else {
        bytes_before(x.instance, y.instance)
    }
}

/// Whether no instance comes before an earlier one.
pub open spec fn sorted(s: Seq<InstanceView>) -> bool {
    forall|i: int, j: int| 0 <= i < j < s.len() ==> !before(s[j], s[i])
}

/// Of two byte strings one comes before the other, or they are the same;
/// and never both.
pub proof fn lemma_bytes_order(a: Seq<u8>, b: Seq<u8>)
    ensures
        !(bytes_before(a, b) && bytes_before(b, a)),
        !bytes_before(a, b) && !bytes_before(b, a) ==> a == b,
    decreases a.len(),
{
    if a.len() > 0 && b.len() > 0 && a[0] == b[0] {
        lemma_bytes_order(a.drop_first(), b.drop_first());
        if !bytes_before(a, b) && !bytes_before(b, a) {
            assert(a =~= seq![a[0]] + a.drop_first());
            assert(b =~= seq![b[0]] + b.drop_first());
        }
    } else if a.len() == 0 && b.len() == 0 {
        assert(a =~= b);
    }
}

/// The order of byte strings is transitive.
pub proof fn lemma_bytes_transitive(a: Seq<u8>, b: Seq<u8>, c: Seq<u8>)
    requires
        bytes_before(a, b),
        bytes_before(b, c),
    ensures
        bytes_before(a, c),
    decreases a.len(),
{
    if a.len() > 0 && b.len() > 0 && c.len() > 0 && a[0] == b[0] && b[0] == c[0] {
        lemma_bytes_transitive(a.drop_first(), b.drop_first(), c.drop_first());
    }
}

/// The order of instances is total and strict: of two instances one comes
/// before the other, or they are the same; and never both.
pub proof fn lemma_order(x: InstanceView, y: InstanceView)
    ensures
        !(before(x, y) && before(y, x)),
        !before(x, y) && !before(y, x) ==> x == y,
{
    lemma_bytes_order(x.instance, y.instance);
    if x.model.rank() == y.model.rank() {
        x.model.lemma_rank_injective(y.model);
    }
}

/// The order of instances is transitive.
pub proof fn lemma_order_transitive(x: InstanceView, y: InstanceView, z: InstanceView)
    requires
        before(x, y),
        before(y, z),
    ensures
        before(x, z),
{
    if x.entropy == y.entropy && y.entropy == z.entropy && x.model.rank() == y.model.rank()
        && y.model.rank() == z.model.rank() {
        lemma_bytes_transitive(x.instance, y.instance, z.instance);
    }
}

/// The order of an answer does not depend on the order in which its
/// instances were found: two sorted sequences of the same instances, each
/// as often in the one as in the other, are the same sequence.
pub proof fn lemma_sorted_unique(s: Seq<InstanceView>, t: Seq<InstanceView>)
    requires
        sorted(s),
        sorted(t),
        s.to_multiset() == t.to_multiset(),
    ensures
        s == t,
    decreases s.len(),
{
    broadcast use vstd::seq_lib::group_to_multiset_ensures;

    assert(s.len() == t.len()) by {
        assert(s.to_multiset().len() == s.len());
        assert(t.to_multiset().len() == t.len());
    }
    if s.len() > 0 {
        assert(t.to_multiset().contains(s[0])) by {
            assert(s.to_multiset().count(s[0]) > 0);
        }
        assert(s.to_multiset().contains(t[0])) by {
            assert(t.to_multiset().count(t[0]) > 0);
        }
        let i = choose|i: int| 0 <= i < t.len() && t[i] == s[0];
        let j = choose|j: int| 0 <= j < s.len() && s[j] == t[0];
        lemma_order(s[0], t[0]);
        assert(s[0] == t[0]);
        let s1 = s.drop_first();
        let t1 = t.drop_first();
        assert(s1 =~= s.remove(0));
        assert(t1 =~= t.remove(0));
        assert(s1.to_multiset() == t1.to_multiset());
        assert(sorted(s1)) by {
            assert forall|a: int, b: int| 0 <= a < b < s1.len() implies !before(s1[b], s1[a]) by {
                assert(s1[a] == s[a + 1] && s1[b] == s[b + 1]);
            }
        }
        assert(sorted(t1)) by {
            assert forall|a: int, b: int| 0 <= a < b < t1.len() implies !before(t1[b], t1[a]) by {
                assert(t1[a] == t[a + 1] && t1[b] == t[b + 1]);
            }
        }
        lemma_sorted_unique(s1, t1);
        assert(s =~= seq![s[0]] + s1);
        assert(t =~= seq![t[0]] + t1);
    } else {
        assert(s =~= t);
    }
}

/// Whether `a` comes before `b` in the order of byte strings.
fn bytes_precede(a: &Vec<u8>, b: &Vec<u8>) -> (r: bool)
    ensures
        r == bytes_before(a@, b@),
{
    let mut i: usize = 0;
    assert(a@.skip(0) =~= a@ && b@.skip(0) =~= b@);
    while i < a.len() && i < b.len()
        invariant
            i <= a.len(),
            i <= b.len(),
            bytes_before(a@, b@) == bytes_before(a@.skip(i as int), b@.skip(i as int)),
        decreases a.len() - i,
    {
        assert(a@.skip(i as int)[0] == a@[i as int]);
        assert(b@.skip(i as int)[0] == b@[i as int]);
        if a[i] != b[i] {
            return a[i] < b[i];
        }
        assert(a@.skip(i as int).drop_first() =~= a@.skip(i + 1));
        assert(b@.skip(i as int).drop_first() =~= b@.skip(i + 1));
        i += 1;
    }
    i < b.len()
}

impl InstanceInfo {
    /// Whether this instance comes before `other` in an answer.
    pub fn precedes(&self, other: &InstanceInfo) -> (r: bool)
        ensures
            r == before(self@, other@),
    {
        if self.entropy != other.entropy {
            self.entropy < other.entropy
        } else if self.model.place() != other.model.place() {
            self.model.place() < other.model.place()
        } else {
            bytes_precede(&self.instance, &other.instance)
        }
    }
}

/// The same instances in the order of an answer.
pub fn sort_instances(instances: Vec<InstanceInfo>) -> (r: Vec<InstanceInfo>)
    ensures
        sorted(instances_view(r@)),
        instances_view(r@).to_multiset() == instances_view(instances@).to_multiset(),
{
    broadcast use vstd::seq_lib::group_to_multiset_ensures;

    let ghost all = instances_view(instances@);
    let mut rest = instances;
    let mut out: Vec<InstanceInfo> = Vec::new();
    assert(instances_view(out@) =~= Seq::<InstanceView>::empty());
    assert(instances_view(out@).to_multiset().add(all.to_multiset()) =~= all.to_multiset());
    while rest.len() > 0
        invariant
            sorted(instances_view(out@)),
            instances_view(out@).to_multiset().add(instances_view(rest@).to_multiset())
                == all.to_multiset(),
        decreases rest.len(),
    {
        let ghost rest_before = instances_view(rest@);
        let ghost out_before = instances_view(out@);
        let x = rest.pop().unwrap();
        assert(rest_before =~= instances_view(rest@).push(x@));
        let mut j: usize = 0;
        while j < out.len() && !x.precedes(&out[j])
            invariant
                j <= out.len(),
                out_before == instances_view(out@),
                forall|k: int| 0 <= k < j ==> !before(x@, out_before[k]),
            decreases out.len() - j,
        {
            assert(out_before[j as int] == out@[j as int]@);
            j += 1;
        }
        proof {
            if j < out.len() {
                assert(out_before[j as int] == out@[j as int]@);
            }
        }
        out.insert(j, x);
        let ghost out_after = instances_view(out@);
        assert(out_after =~= out_before.insert(j as int, x@));
        assert(sorted(out_after)) by {
            assert forall|a: int, b: int| 0 <= a < b < out_after.len() implies !before(
                out_after[b],
                out_after[a],
            ) by {
                if b < j {
                    assert(out_after[a] == out_before[a] && out_after[b] == out_before[b]);
                } else if b == j {
                    assert(out_after[a] == out_before[a] && out_after[b] == x@);
                } else if a < j {
                    assert(out_after[a] == out_before[a] && out_after[b] == out_before[b - 1]);
                } else if a == j {
                    assert(out_after[a] == x@ && out_after[b] == out_before[b - 1]);
                    assert(before(x@, out_before[j as int]));
                    lemma_order(x@, out_before[j as int]);
                    if before(out_before[b - 1], x@) {
                        lemma_order_transitive(out_before[b - 1], x@, out_before[j as int]);
                    }
                } else {
                    assert(out_after[a] == out_before[a - 1] && out_after[b] == out_before[b
                        - 1]);
                }
            }
        }
        assert(out_after.to_multiset() =~= out_before.to_multiset().insert(x@)) by {
            vstd::seq_lib::to_multiset_insert(out_before, j as int, x@);
        }
        assert(rest_before.to_multiset() =~= instances_view(rest@).to_multiset().insert(x@)) by {
            vstd::seq_lib::to_multiset_build(instances_view(rest@), x@);
        }
        assert(out_after.to_multiset().add(instances_view(rest@).to_multiset())
            =~= out_before.to_multiset().add(rest_before.to_multiset()));
    }
    assert(instances_view(rest@).to_multiset() =~= vstd::multiset::Multiset::empty()) by {
        assert(instances_view(rest@) =~= Seq::<InstanceView>::empty());
    }
    assert(instances_view(out@).to_multiset().add(vstd::multiset::Multiset::empty()) =~= instances_view(
        out@,
    ).to_multiset());
    out
}


/// One instance as a theory's instance space gave it: its score on the
/// subject and its serialized form.
#[derive(Debug, Clone, PartialEq, Eq)]
pub struct Candidate {
    pub entropy: i64,
    pub instance: Vec<u8>,
}

/// The instances of one theory for one subject, in the order in which they
/// were enumerated.
#[derive(Debug, Clone, PartialEq, Eq)]
pub struct InstanceSpace {
    pub model: Model,
    pub candidates: Vec<Candidate>,
}

/// An instance space as mathematics sees it.
pub struct InstanceSpaceView {
    pub model: Model,
    pub candidates: Seq<InstanceView>,
}

impl View for InstanceSpace {
    type V = InstanceSpaceView;

    open spec fn view(&self) -> InstanceSpaceView {
        InstanceSpaceView {
            model: self.model,
            candidates: self.candidates@.map_values(
                |c: Candidate|
                    InstanceView {
                        model: self.model,
                        entropy: c.entropy as int,
                        instance: c.instance@,
                    },
            ),
        }
    }
}

/// The instance spaces as mathematics sees them.
pub open spec fn spaces_view(spaces: Seq<InstanceSpace>) -> Seq<InstanceSpaceView> {
    spaces.map_values(|s: InstanceSpace| s@)
}

/// The best of the instances, seen in their order.
pub open spec fn evaluated(candidates: Seq<InstanceView>) -> Best
    decreases candidates.len(),
{
    if candidates.len() == 0 {
        Best::empty()
    } else {
        evaluated(candidates.drop_last()).add(candidates.last())
    }
}

/// Whether a theory is left out of every search: sequentially
/// rationalizable choice is.
pub open spec fn skipped(model: Model) -> bool {
    model == Model::SequentiallyRationalizableChoice
}

/// The best over the theories: the best of each theory that is not left
/// out, combined in the order of the theories.
pub open spec fn searched(spaces: Seq<InstanceSpaceView>) -> Best
    decreases spaces.len(),
{
    if spaces.len() == 0 {
        Best::empty()
    } else if skipped(spaces.last().model) {
        searched(spaces.drop_last())
    } else {
        searched(spaces.drop_last()).combine(evaluated(spaces.last().candidates))
    }
}

/// Whether a theory is left out of every search.
pub fn left_out(model: &Model) -> (r: bool)
    ensures
        r == skipped(*model),
{
    match model {
        Model::SequentiallyRationalizableChoice => true,
        _ => false,
    }
}

/// The best of the instances of one theory.
pub fn evaluate_model(space: &InstanceSpace) -> (r: BestInstances)
    ensures
        r@ == evaluated(space@.candidates),
        r@.wf(),
{
    let ghost all = space@.candidates;
    let mut model_instances = BestInstances::new();
    let mut i: usize = 0;
    assert(all.take(0) =~= Seq::<InstanceView>::empty());
    while i < space.candidates.len()
        invariant
            i <= space.candidates.len(),
            all == space@.candidates,
            model_instances@ == evaluated(all.take(i as int)),
            model_instances@.wf(),
        decreases space.candidates.len() - i,
    {
        let candidate = &space.candidates[i];
        let instance = candidate.instance.clone();
        assert(instance@ =~= candidate.instance@);
        model_instances.add_instance(space.model, candidate.entropy, instance);
        assert(all.take(i + 1).drop_last() =~= all.take(i as int));
        assert(all.take(i + 1).last() == all[i as int]);
        i += 1;
    }
    assert(all.take(i as int) =~= all);
    model_instances
}

/// The best over the theories of a subject.
pub fn search(spaces: &Vec<InstanceSpace>) -> (r: BestInstances)
    ensures
        r@ == searched(spaces_view(spaces@)),
        r@.wf(),
{
    let ghost all = spaces_view(spaces@);
    let mut best_instances = BestInstances::new();
    let mut i: usize = 0;
    assert(all.take(0) =~= Seq::<InstanceSpaceView>::empty());
    while i < spaces.len()
        invariant
            i <= spaces.len(),
            all == spaces_view(spaces@),
            best_instances@ == searched(all.take(i as int)),
            best_instances@.wf(),
        decreases spaces.len() - i,
    {
        assert(all.take(i + 1).drop_last() =~= all.take(i as int));
        assert(all.take(i + 1).last() == spaces@[i as int]@);
        if !left_out(&spaces[i].model) {
            best_instances = best_instances.combine(evaluate_model(&spaces[i]));
        }
        i += 1;
    }
    assert(all.take(i as int) =~= all);
    best_instances
}

/// The answer for one subject.
pub struct Response {
    pub subject_name: String,
    pub minimal_entropy: i64,
    pub best_instances: Vec<InstanceInfo>,
}

/// An answer as mathematics sees it.
pub struct ResponseView {
    pub subject_name: Seq<char>,
    pub minimal_entropy: int,
    pub best_instances: Seq<InstanceView>,
}

impl View for Response {
    type V = ResponseView;

    open spec fn view(&self) -> ResponseView {
        ResponseView {
            subject_name: self.subject_name@,
            minimal_entropy: self.minimal_entropy as int,
            best_instances: instances_view(self.best_instances@),
        }
    }
}

/// Whether `r` is the answer for the subject `name` whose search gave
/// `best`: it holds the lowest score, and the instances kept, of which
/// there is at least one, each as often as it was kept, in the order of
/// answers.
pub open spec fn answers(r: ResponseView, name: Seq<char>, best: Best) -> bool {
    &&& r.subject_name == name
    &&& best.lowest == Some(r.minimal_entropy)
    &&& sorted(r.best_instances)
    &&& r.best_instances.len() > 0
    &&& r.best_instances.to_multiset() == best.kept.to_multiset()
}

/// A search has one answer, whatever the order in which its instances
/// were found and combined.
pub proof fn lemma_one_answer(
    r1: ResponseView,
    r2: ResponseView,
    name: Seq<char>,
    best1: Best,
    best2: Best,
)
    requires
        answers(r1, name, best1),
        answers(r2, name, best2),
        best1.lowest == best2.lowest,
        best1.kept.to_multiset() == best2.kept.to_multiset(),
    ensures
        r1 == r2,
{
    lemma_sorted_unique(r1.best_instances, r2.best_instances);
}

/// The answer for the subject whose search gave `best`; `None` where the
/// search saw no instance.
pub fn answer(subject_name: &str, best: BestInstances) -> (r: Option<Response>)
    ensures
        match r {
            None => best@.lowest is None,
            Some(response) => answers(response@, subject_name@, best@),
        },
{
    match best.finish() {
        None => None,
        Some((best_instances, minimal_entropy)) => {
            let ghost kept = instances_view(best_instances@);
            let best_instances = sort_instances(best_instances);
            proof {
                vstd::seq_lib::to_multiset_len(kept);
                vstd::seq_lib::to_multiset_len(instances_view(best_instances@));
            }
            Some(
                Response {
                    subject_name: String::from_str(subject_name),
                    best_instances,
                    minimal_entropy,
                },
            )
        },
    }
}

/// Searches the theories for the instances of least error on one subject.
/// Some theory that is not left out must have an instance.
pub fn run_one(subject_name: &str, spaces: &Vec<InstanceSpace>) -> (r: Response)
    requires
        searched(spaces_view(spaces@)).lowest is Some,
    ensures
        answers(r@, subject_name@, searched(spaces_view(spaces@))),
{
    answer(subject_name, search(spaces)).unwrap()
}

/// The bests combined from the first on.
pub open spec fn combined(parts: Seq<Best>) -> Best
    decreases parts.len(),
{
    if parts.len() == 0 {
        Best::empty()
    } else {
        combined(parts.drop_last()).combine(parts.last())
    }
}

/// The bests as mathematics sees them.
pub open spec fn bests_view(parts: Seq<BestInstances>) -> Seq<Best> {
    parts.map_values(|b: BestInstances| b@)
}

/// The best over the theories from the best of each, combined in their
/// order.
pub fn combine_all(parts: Vec<BestInstances>) -> (r: BestInstances)
    ensures
        r@ == combined(bests_view(parts@)),
        r@.wf(),
{
    let ghost all = bests_view(parts@);
    let mut pending = reversed(parts);
    let mut best_instances = BestInstances::new();
    let ghost mut done: int = 0;
    assert(all.take(0) =~= Seq::<Best>::empty());
    while pending.len() > 0
        invariant
            all == bests_view(parts@),
            0 <= done <= all.len(),
            pending@.len() + done == all.len(),
            forall|k: int| 0 <= k < pending@.len() ==> pending@[k] == parts@[all.len() - 1 - k],
            best_instances@ == combined(all.take(done)),
            best_instances@.wf(),
        decreases pending.len(),
    {
        let part = pending.pop().unwrap();
        assert(part == parts@[done]);
        assert(all.take(done + 1).drop_last() =~= all.take(done));
        assert(all.take(done + 1).last() == part@);
        best_instances = best_instances.combine(part);
        proof {
            done = done + 1;
        }
    }
    assert(all.take(done) =~= all);
    best_instances
}

/// Searching the theories is combining the best of each theory that is not
/// left out.
pub proof fn lemma_search_combines(spaces: Seq<InstanceSpaceView>)
    ensures
        searched(spaces) == combined(
            spaces.filter(|s: InstanceSpaceView| !skipped(s.model)).map_values(
                |s: InstanceSpaceView| evaluated(s.candidates),
            ),
        ),
    decreases spaces.len(),
{
    let keep = |s: InstanceSpaceView| !skipped(s.model);
    let best = |s: InstanceSpaceView| evaluated(s.candidates);
    reveal(Seq::filter);
    if spaces.len() > 0 {
        lemma_search_combines(spaces.drop_last());
        let before = spaces.drop_last().filter(keep);
        if keep(spaces.last()) {
            assert(spaces.filter(keep) =~= before.push(spaces.last()));
            assert(spaces.filter(keep).map_values(best).drop_last() =~= before.map_values(best));
        } else {
            assert(spaces.filter(keep) =~= before);
        }
    } else {
        assert(spaces.filter(keep).map_values(best) =~= Seq::<Best>::empty());
    }
}

/// Why a batch has no answer.
#[derive(Debug, Clone, PartialEq, Eq)]
pub enum EstimationError {
    /// An instance could not be evaluated.
    InstanceError(String),
    /// What the theories need precomputed could not be had.
    PreorderError(String),
}

impl EstimationError {
    /// What went wrong, in words.
    pub fn message(&self) -> (r: String)
        ensures
            r@ == match self {
                EstimationError::InstanceError(m) => m@,
                EstimationError::PreorderError(m) => m@,
            },
    {
        match self {
            EstimationError::InstanceError(m) => m.clone(),
            EstimationError::PreorderError(m) => m.clone(),
        }
    }
}

/// A batch: the subjects, the theories to fit to each, whether a choice is
/// forced, and whether the subjects are to be taken one after the other.
#[derive(Debug, Clone)]
pub struct Request {
    pub subjects: Vec<Subject>,
    pub models: Vec<Model>,
    pub fc: bool,
    pub disable_parallelism: bool,
}

/// The largest number of alternatives of a subject, cut to 32 bits.
pub open spec fn most_alternatives(subjects: Seq<Subject>) -> u32
    decreases subjects.len(),
{
    if subjects.len() == 0 {
        0
    } else {
        let before = most_alternatives(subjects.drop_last());
        let count = subjects.last().alternatives@.len() as u32;
        if count > before {
            count
        } else {
            before
        }
    }
}

/// Whether the theories need anything precomputed: all lists do but the
/// one that holds the maximization of a strict total preference alone.
pub open spec fn needs_precomputed(models: Seq<Model>) -> bool {
    models != seq![
        Model::PreorderMaximization(PreorderParams { strict: Some(true), total: Some(true) }),
    ]
}

/// Up to which number of alternatives the structures that the theories are
/// built on must be precomputed before the batch is run; `None` where the
/// theories need none. A batch has at least one subject.
pub fn precompute_target(request: &Request) -> (r: Option<u32>)
    requires
        request.subjects@.len() > 0,
    ensures
        r == if needs_precomputed(request.models@) {
            Some(most_alternatives(request.subjects@))
        } else {
            None
        },
{
    let ghost all = request.subjects@;
    let mut alt_count: u32 = 0;
    let mut i: usize = 0;
    assert(all.take(0) =~= Seq::<Subject>::empty());
    while i < request.subjects.len()
        invariant
            i <= request.subjects.len(),
            all == request.subjects@,
            alt_count == most_alternatives(all.take(i as int)),
        decreases request.subjects.len() - i,
    {
        let count = #[verifier::truncate] (request.subjects[i].alternatives.len() as u32);
        assert(all.take(i + 1).drop_last() =~= all.take(i as int));
        assert(all.take(i + 1).last() == all[i as int]);
        if count > alt_count {
            alt_count = count;
        }
        i += 1;
    }
    assert(all.take(i as int) =~= all);
    let only_permutations = request.models.len() == 1
        && request.models[0].is_strict_total_maximization();
    proof {
        let one = seq![
            Model::PreorderMaximization(PreorderParams { strict: Some(true), total: Some(true) }),
        ];
        if only_permutations {
            assert(request.models@ =~= one);
        } else if request.models@.len() == 1 {
            assert(one[0] != request.models@[0]);
        } else {
            assert(one.len() != request.models@.len());
        }
    }
    if only_permutations {
        None
    } else {
        Some(alt_count)
    }
}

/// The theories of the instance spaces, in their order.
pub open spec fn theories_of(spaces: Seq<InstanceSpace>) -> Seq<Model> {
    spaces.map_values(|s: InstanceSpace| s.model)
}

/// Runs a batch on the instance spaces of its subjects: the answers come
/// in the order of the subjects. A batch has at least one subject; for
/// each subject there is one list of spaces, which holds the space of each
/// theory of the batch in the order of the theories; and for each subject
/// some theory that is not left out has an instance.
pub fn run(request: &Request, spaces: &Vec<Vec<InstanceSpace>>) -> (r: Vec<Response>)
    requires
        request.subjects@.len() > 0,
        spaces@.len() == request.subjects@.len(),
        forall|i: int| 0 <= i < spaces@.len() ==> theories_of(#[trigger] spaces@[i]@) == request.models@,
        forall|i: int|
            0 <= i < spaces@.len() ==> (#[trigger] searched(
                spaces_view(spaces@[i]@),
            )).lowest is Some,
    ensures
        r@.len() == request.subjects@.len(),
        forall|i: int|
            0 <= i < r@.len() ==> answers(
                #[trigger] r@[i]@,
                request.subjects@[i].name@,
                searched(spaces_view(spaces@[i]@)),
            ),
{
    let mut responses: Vec<Response> = Vec::new();
    let mut i: usize = 0;
    while i < request.subjects.len()
        invariant
            i <= request.subjects.len(),
            spaces@.len() == request.subjects@.len(),
            forall|k: int|
                0 <= k < spaces@.len() ==> (#[trigger] searched(
                    spaces_view(spaces@[k]@),
                )).lowest is Some,
            responses@.len() == i,
            forall|k: int|
                0 <= k < i ==> answers(
                    #[trigger] responses@[k]@,
                    request.subjects@[k].name@,
                    searched(spaces_view(spaces@[k]@)),
                ),
        decreases request.subjects.len() - i,
    {
        assert(searched(spaces_view(spaces@[i as int]@)).lowest is Some);
        let response = run_one(request.subjects[i].name.as_str(), &spaces[i]);
        responses.push(response);
        i += 1;
    }
    responses
}

/// The elements in the opposite order.
fn reversed<T>(v: Vec<T>) -> (r: Vec<T>)
    ensures
        r@ == v@.reverse(),
{
    let ghost all = v@;
    let mut v = v;
    let mut r: Vec<T> = Vec::new();
    while v.len() > 0
        invariant
            v@.len() + r@.len() == all.len(),
            forall|k: int| 0 <= k < v@.len() ==> v@[k] == all[k],
            forall|k: int| 0 <= k < r@.len() ==> r@[k] == all[all.len() - 1 - k],
        decreases v.len(),
    {
        let x = v.pop().unwrap();
        r.push(x);
    }
    assert(r@ =~= all.reverse());
    r
}

/// Whether `k` is the first place of a failure among the results.
pub open spec fn first_failure(results: Seq<Result<Response, EstimationError>>, k: int) -> bool {
    &&& 0 <= k < results.len()
    &&& results[k] is Err
    &&& forall|i: int| 0 <= i < k ==> results[i] is Ok
}

/// The answers of a batch from the results of its subjects: all of them, in
/// the order of the subjects, where every subject has an answer; else the
/// failure of the first subject that has none.
pub fn collect(results: Vec<Result<Response, EstimationError>>) -> (r: Result<
    Vec<Response>,
    EstimationError,
>)
    ensures
        match r {
            Ok(responses) => responses@.len() == results@.len() && forall|i: int|
                0 <= i < results@.len() ==> results@[i] == Ok::<Response, EstimationError>(
                    responses@[i],
                ),
            Err(e) => exists|k: int|
                first_failure(results@, k) && results@[k] == Err::<Response, EstimationError>(e),
        },
{
    let ghost all = results@;
    let mut pending = reversed(results);
    let mut responses: Vec<Response> = Vec::new();
    while pending.len() > 0
        invariant
            all == results@,
            pending@.len() + responses@.len() == all.len(),
            forall|k: int| 0 <= k < pending@.len() ==> pending@[k] == all[all.len() - 1 - k],
            forall|k: int|
                0 <= k < responses@.len() ==> all[k] == Ok::<Response, EstimationError>(
                    responses@[k],
                ),
        decreases pending.len(),
    {
        let ghost at = responses@.len() as int;
        let result = pending.pop().unwrap();
        assert(result == all[at]);
        match result {
            Ok(response) => {
                responses.push(response);
            },
            Err(e) => {
                assert(first_failure(all, at));
                return Err(e);
            },
        }
    }
    Ok(responses)
}

} // verus!
