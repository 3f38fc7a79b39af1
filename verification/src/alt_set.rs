//! Sets of alternatives.

use crate::alt::Alt;
use vstd::prelude::*;

verus! {

/// Whether every element is smaller than all that follow it.
pub open spec fn ascending(s: Seq<u32>) -> bool {
    forall|i: int, j: int| 0 <= i < j < s.len() ==> s[i] < s[j]
}

/// An ascending sequence holds at each place at least that place's number.
pub proof fn lemma_ascending_from(s: Seq<u32>, n: int)
    requires
        ascending(s),
        0 <= n <= s.len(),
    ensures
        forall|i: int| 0 <= i < n ==> s[i] >= i,
        n <= 0x1_0000_0000,
    decreases n,
{
    if n > 0 {
        lemma_ascending_from(s, n - 1);
        if n > 1 {
            assert(s[n - 2] < s[n - 1]);
        }
    }
}

/// An ascending sequence is known by its elements.
pub proof fn lemma_ascending_unique(s: Seq<u32>, t: Seq<u32>)
    requires
        ascending(s),
        ascending(t),
        s.to_set() == t.to_set(),
    ensures
        s == t,
    decreases s.len(),
{
    if s.len() == 0 {
        if t.len() > 0 {
            assert(t.to_set().contains(t[0]));
            assert(s.contains(t[0]));
        }
        assert(s =~= t);
    } else {
        assert(s.to_set().contains(s.last()));
        assert(t.contains(s.last()));
        let j = choose|j: int| 0 <= j < t.len() && t[j] == s.last();
        assert(t.to_set().contains(t.last()));
        assert(s.contains(t.last()));
        let i = choose|i: int| 0 <= i < s.len() && s[i] == t.last();
        assert(s.last() == t.last());
        let s1 = s.drop_last();
        let t1 = t.drop_last();
        assert(s1.to_set() =~= t1.to_set()) by {
            assert forall|v: u32| s1.contains(v) <==> t1.contains(v) by {
                if s1.contains(v) {
                    let a = choose|a: int| 0 <= a < s1.len() && s1[a] == v;
                    assert(s[a] == v && s[a] < s.last());
                    assert(s.to_set().contains(v));
                    assert(t.contains(v));
                    let b = choose|b: int| 0 <= b < t.len() && t[b] == v;
                    assert(t1[b] == v);
                }
                if t1.contains(v) {
                    let b = choose|b: int| 0 <= b < t1.len() && t1[b] == v;
                    assert(t[b] == v && t[b] < t.last());
                    assert(t.to_set().contains(v));
                    assert(s.contains(v));
                    let a = choose|a: int| 0 <= a < s.len() && s[a] == v;
                    assert(s1[a] == v);
                }
            }
        }
        lemma_ascending_unique(s1, t1);
        assert(s =~= s1.push(s.last()));
        assert(t =~= t1.push(t.last()));
    }
}

/// All sets of numbers below `n`, the empty one first: those of numbers
/// below `n - 1`, then the same sets with `n - 1` added.
pub open spec fn subsets(n: nat) -> Seq<Set<u32>>
    decreases n,
{
    if n == 0 {
        seq![Set::<u32>::empty()]
    } else {
        let before = subsets((n - 1) as nat);
        before + before.map_values(|s: Set<u32>| s.insert((n - 1) as u32))
    }
}

/// The sets as mathematics sees them.
pub open spec fn sets_view(sets: Seq<AltSet>) -> Seq<Set<u32>> {
    sets.map_values(|s: AltSet| s@)
}

/// A finite set of alternatives, kept as the ascending list of their ids.
#[derive(Debug, PartialEq, Eq)]
pub struct AltSet {
    members: Vec<u32>,
}

impl View for AltSet {
    type V = Set<u32>;

    closed spec fn view(&self) -> Set<u32> {
        self.members@.to_set()
    }
}

impl Clone for AltSet {
    fn clone(&self) -> (r: AltSet)
        ensures
            r@ == self@,
            r.listing() == self.listing(),
    {
        proof {
            use_type_invariant(self);
        }
        let mut members: Vec<u32> = Vec::new();
        let mut i: usize = 0;
        while i < self.members.len()
            invariant
                i <= self.members.len(),
                members@ == self.members@.subrange(0, i as int),
            decreases self.members.len() - i,
        {
            members.push(self.members[i]);
            i += 1;
            assert(members@ =~= self.members@.subrange(0, i as int));
        }
        assert(members@ =~= self.members@);
        AltSet { members }
    }
}

impl AltSet {
    #[verifier::type_invariant]
    spec fn well_formed(self) -> bool {
        ascending(self.members@)
    }

    /// The ids of the members, smallest first.
    pub closed spec fn listing(&self) -> Seq<u32> {
        self.members@
    }

    /// The listing is ascending and holds exactly the members.
    pub proof fn lemma_listing(&self)
        requires
            ascending(self.listing()),
        ensures
            self.listing().no_duplicates(),
            self.listing().to_set() == self@,
            self@.finite(),
            self@.len() == self.listing().len(),
    {
        let s = self.members@;
        assert(s.no_duplicates());
        s.unique_seq_to_set();
        vstd::seq_lib::seq_to_set_is_finite(s);
    }

    /// The set without members.
    pub fn empty() -> (r: AltSet)
        ensures
            r@ == Set::<u32>::empty(),
            r.listing() == Seq::<u32>::empty(),
    {
        let r = AltSet { members: Vec::new() };
        assert(r.members@.to_set() =~= Set::<u32>::empty());
        r
    }

    /// The set whose only member is `a`.
    pub fn singleton(a: Alt) -> (r: AltSet)
        ensures
            r@ == set![a.0],
            r.listing() == seq![a.0],
    {
        let mut members: Vec<u32> = Vec::new();
        members.push(a.0);
        let r = AltSet { members };
        assert(r.members@ =~= seq![a.0]);
        assert(r.members@.to_set() =~= set![a.0]) by {
            assert(r.members@[0] == a.0);
        }
        r
    }

    /// Whether `a` is a member.
    pub fn contains(&self, a: Alt) -> (r: bool)
        ensures
            r == self@.contains(a.0),
    {
        let mut i: usize = 0;
        while i < self.members.len()
            invariant
                i <= self.members.len(),
                forall|k: int| 0 <= k < i ==> self.members@[k] != a.0,
            decreases self.members.len() - i,
        {
            if self.members[i] == a.0 {
                return true;
            }
            i += 1;
        }
        false
    }

    /// Adds `a` to the set; a member stays one.
    pub fn insert(&mut self, a: Alt)
        ensures
            final(self)@ == old(self)@.insert(a.0),
    {
        proof {
            use_type_invariant(&*self);
        }
        let ghost before = self.members@;
        let n = self.members.len();
        let mut fresh: Vec<u32> = Vec::new();
        let mut i: usize = 0;
        while i < n && self.members[i] < a.0
            invariant
                n == before.len(),
                self.members@ == before,
                i <= n,
                fresh@.len() == i,
                forall|k: int| 0 <= k < i ==> fresh@[k] == before[k] && before[k] < a.0,
            decreases n - i,
        {
            fresh.push(self.members[i]);
            i += 1;
        }
        if i < n && self.members[i] == a.0 {
            assert(before.to_set() =~= before.to_set().insert(a.0));
            return ;
        }
        let ghost at = i as int;
        fresh.push(a.0);
        while i < n
            invariant
                n == before.len(),
                self.members@ == before,
                0 <= at <= i <= n,
                fresh@.len() == i + 1,
                fresh@[at] == a.0,
                forall|k: int| 0 <= k < at ==> fresh@[k] == before[k],
                forall|k: int| at < k <= i ==> fresh@[k] == before[k - 1],
            decreases n - i,
        {
            fresh.push(self.members[i]);
            i += 1;
        }
        assert(ascending(fresh@)) by {
            assert forall|x: int, y: int| 0 <= x < y < fresh@.len() implies fresh@[x] < fresh@[y] by {
                let bx = if x < at { x } else { x - 1 };
                let by = if y < at { y } else { y - 1 };
                if x != at {
                    assert(fresh@[x] == before[bx]);
                }
                if y != at {
                    assert(fresh@[y] == before[by]);
                }
            }
        }
        assert(fresh@.to_set() =~= before.to_set().insert(a.0)) by {
            assert forall|v: u32| fresh@.contains(v) <==> (before.contains(v) || v == a.0) by {
                if fresh@.contains(v) {
                    let k = choose|k: int| 0 <= k < fresh@.len() && fresh@[k] == v;
                    if k < at {
                        assert(before[k] == v);
                    } else if k > at {
                        assert(before[k - 1] == v);
                    }
                }
                if before.contains(v) {
                    let k = choose|k: int| 0 <= k < before.len() && before[k] == v;
                    if k < at {
                        assert(fresh@[k] == v);
                    } else {
                        assert(fresh@[k + 1] == v);
                    }
                }
                if v == a.0 {
                    assert(fresh@[at] == v);
                }
            }
        }
        self.members = fresh;
    }

    /// Whether the two sets have the same members.
    pub fn same(&self, other: &AltSet) -> (r: bool)
        ensures
            r == (self@ == other@),
    {
        proof {
            use_type_invariant(self);
            use_type_invariant(other);
            if self@ == other@ {
                lemma_ascending_unique(self.members@, other.members@);
            }
        }
        if self.members.len() != other.members.len() {
            return false;
        }
        let mut i: usize = 0;
        while i < self.members.len()
            invariant
                i <= self.members.len(),
                self.members.len() == other.members.len(),
                self@ == other@ ==> self.members@ == other.members@,
                forall|k: int| 0 <= k < i ==> self.members@[k] == other.members@[k],
            decreases self.members.len() - i,
        {
            if self.members[i] != other.members[i] {
                return false;
            }
            i += 1;
        }
        assert(self.members@ =~= other.members@);
        true
    }

    /// Whether the set has no member.
    pub fn is_empty(&self) -> (r: bool)
        ensures
            r == (self@ == Set::<u32>::empty()),
    {
        let r = self.members.len() == 0;
        proof {
            if r {
                assert(self.members@.to_set() =~= Set::<u32>::empty());
            } else {
                assert(self.members@.to_set().contains(self.members@[0]));
            }
        }
        r
    }

    /// Whether the set has a member.
    pub fn is_nonempty(&self) -> (r: bool)
        ensures
            r == (self@ != Set::<u32>::empty()),
    {
        !self.is_empty()
    }

    /// The number of members.
    pub fn size(&self) -> (r: usize)
        ensures
            self@.finite(),
            r == self@.len(),
            r == self.listing().len(),
            r <= 0x1_0000_0000,
    {
        proof {
            use_type_invariant(self);
            self.lemma_listing();
            lemma_ascending_from(self.members@, self.members@.len() as int);
        }
        self.members.len()
    }

    /// All sets of alternatives with ids below `n` that are not empty: first
    /// those without the greatest id, then the same sets with it.
    pub fn powerset(n: u32) -> (r: Vec<AltSet>)
        ensures
            sets_view(r@) == subsets(n as nat).drop_first(),
    {
        let mut all: Vec<AltSet> = Vec::new();
        all.push(AltSet::empty());
        assert(sets_view(all@) =~= subsets(0));
        let mut a: u32 = 0;
        while a < n
            invariant
                a <= n,
                all@.len() >= 1,
                sets_view(all@) == subsets(a as nat),
            decreases n - a,
        {
            let ghost before = subsets(a as nat);
            let len = all.len();
            let mut i: usize = 0;
            assert(before.take(0).map_values(|s: Set<u32>| s.insert(a)) =~= Seq::<
                Set<u32>,
            >::empty());
            assert(sets_view(all@) =~= before + before.take(0).map_values(
                |s: Set<u32>| s.insert(a),
            ));
            while i < len
                invariant
                    i <= len,
                    len == before.len(),
                    all@.len() == len + i,
                    sets_view(all@) == before + before.take(i as int).map_values(
                        |s: Set<u32>| s.insert(a),
                    ),
                decreases len - i,
            {
                let ghost so_far = sets_view(all@);
                assert(so_far[i as int] == before[i as int]);
                assert(so_far[i as int] == all@[i as int]@);
                let mut with = all[i].clone();
                with.insert(Alt(a));
                all.push(with);
                assert(sets_view(all@) =~= before + before.take(i + 1).map_values(
                    |s: Set<u32>| s.insert(a),
                )) by {
                    assert(sets_view(all@) =~= so_far.push(before[i as int].insert(a)));
                    assert(before.take(i + 1).map_values(|s: Set<u32>| s.insert(a))
                        =~= before.take(i as int).map_values(|s: Set<u32>| s.insert(a)).push(
                        before[i as int].insert(a),
                    ));
                }
                i += 1;
            }
            assert(before.take(len as int) =~= before);
            a += 1;
            assert(a - 1 == (a as nat - 1) as u32);
        }
        let ghost full = all@;
        let _ = all.remove(0);
        assert(sets_view(all@) =~= subsets(n as nat).drop_first()) by {
            assert(sets_view(full).len() == full.len());
            assert forall|i: int| 0 <= i < all@.len() implies sets_view(all@)[i] == subsets(
                n as nat,
            )[i + 1] by {
                assert(all@[i] == full[i + 1]);
                assert(sets_view(full)[i + 1] == full[i + 1]@);
            }
        }
        all
    }

    /// The members, smallest first.
    pub fn to_vec(&self) -> (r: Vec<Alt>)
        ensures
            ascending(self.listing()),
            r@.len() == self.listing().len(),
            forall|i: int| 0 <= i < r@.len() ==> r@[i].0 == self.listing()[i],
            self.listing().to_set() == self@,
    {
        proof {
            use_type_invariant(self);
        }
        let mut r: Vec<Alt> = Vec::new();
        let mut i: usize = 0;
        while i < self.members.len()
            invariant
                i <= self.members.len(),
                r@.len() == i,
                forall|k: int| 0 <= k < i ==> r@[k].0 == self.members@[k],
            decreases self.members.len() - i,
        {
            r.push(Alt(self.members[i]));
            i += 1;
        }
        r
    }
}

} // verus!
