//! A set of target specifications, kept in emission order.

use crate::target::{
    key_lt, lemma_key_lt_asymmetric, lemma_key_lt_irreflexive, lemma_key_lt_total,
    lemma_key_lt_transitive, TargetKey, TargetSpec,
};
use vstd::prelude::*;

verus! {

/// Every element is below every later one.
pub open spec fn strictly_sorted(s: Seq<TargetKey>) -> bool {
    forall|i: int, j: int| 0 <= i < j < s.len() ==> key_lt(#[trigger] s[i], #[trigger] s[j])
}

/// The keys of the given targets, in the same order.
pub open spec fn keys_of(targets: Seq<TargetSpec>) -> Seq<TargetKey> {
    Seq::new(targets.len(), |i: int| targets[i]@)
}

/// A strictly sorted sequence holds no key twice.
pub proof fn lemma_sorted_no_duplicates(s: Seq<TargetKey>)
    requires
        strictly_sorted(s),
    ensures
        s.no_duplicates(),
{
    assert forall|i: int, j: int| 0 <= i < s.len() && 0 <= j < s.len() && i != j implies s[i]
        != s[j] by {
        lemma_key_lt_irreflexive(s[i]);
        if i < j {
            assert(key_lt(s[i], s[j]));
        } else {
            assert(key_lt(s[j], s[i]));
        }
    }
}

/// The emission order of a set of targets is determined by the set alone:
/// two strictly sorted sequences with the same elements are the same sequence.
pub proof fn lemma_sorted_unique(a: Seq<TargetKey>, b: Seq<TargetKey>)
    requires
        strictly_sorted(a),
        strictly_sorted(b),
        a.to_set() == b.to_set(),
    ensures
        a == b,
    decreases a.len(),
{
    if a.len() == 0 {
        if b.len() > 0 {
            assert(b.contains(b[0]));
            assert(b.to_set().contains(b[0]));
            assert(a.contains(b[0]));
        }
        assert(a =~= b);
    } else {
        assert(a.contains(a[0]));
        assert(a.to_set().contains(a[0]));
        assert(b.contains(a[0]));
        let j = choose|j: int| 0 <= j < b.len() && b[j] == a[0];
        assert(b.contains(b[0]));
        assert(b.to_set().contains(b[0]));
        assert(a.contains(b[0]));
        let i = choose|i: int| 0 <= i < a.len() && a[i] == b[0];
        if i != 0 && j != 0 {
            assert(key_lt(a[0], a[i]));
            assert(key_lt(b[0], b[j]));
            lemma_key_lt_asymmetric(a[0], a[i]);
        }
        assert(a[0] == b[0]);
        let ta = a.skip(1);
        let tb = b.skip(1);
        lemma_key_lt_irreflexive(a[0]);
        assert forall|x: TargetKey| ta.to_set().contains(x) <==> tb.to_set().contains(x) by {
            if ta.contains(x) {
                let k = choose|k: int| 0 <= k < ta.len() && ta[k] == x;
                assert(a[k + 1] == x);
                assert(key_lt(a[0], a[k + 1]));
                assert(a.contains(x));
                assert(a.to_set().contains(x));
                assert(b.contains(x));
                let m = choose|m: int| 0 <= m < b.len() && b[m] == x;
                assert(m != 0);
                assert(tb[m - 1] == x);
            }
            if tb.contains(x) {
                let k = choose|k: int| 0 <= k < tb.len() && tb[k] == x;
                assert(b[k + 1] == x);
                assert(key_lt(b[0], b[k + 1]));
                assert(b.contains(x));
                assert(b.to_set().contains(x));
                assert(a.contains(x));
                let m = choose|m: int| 0 <= m < a.len() && a[m] == x;
                assert(m != 0);
                assert(ta[m - 1] == x);
            }
        }
        assert(ta.to_set() =~= tb.to_set());
        assert forall|p: int, q: int| 0 <= p < q < ta.len() implies key_lt(
            #[trigger] ta[p],
            #[trigger] ta[q],
        ) by {
            assert(key_lt(a[p + 1], a[q + 1]));
        }
        assert forall|p: int, q: int| 0 <= p < q < tb.len() implies key_lt(
            #[trigger] tb[p],
            #[trigger] tb[q],
        ) by {
            assert(key_lt(b[p + 1], b[q + 1]));
        }
        lemma_sorted_unique(ta, tb);
        assert(a.len() == b.len());
        assert forall|k: int| 0 <= k < a.len() implies a[k] == b[k] by {
            if k > 0 {
                assert(ta[k - 1] == tb[k - 1]);
            }
        }
        assert(a =~= b);
    }
}

/// The emission order of the targets in `set`.
pub open spec fn sorted_targets(set: Set<TargetKey>) -> Seq<TargetKey> {
    choose|s: Seq<TargetKey>| strictly_sorted(s) && s.to_set() == set
}

/// A strictly sorted sequence is the emission order of its own elements.
pub proof fn lemma_sorted_targets(s: Seq<TargetKey>)
    requires
        strictly_sorted(s),
    ensures
        sorted_targets(s.to_set()) == s,
{
    let t = sorted_targets(s.to_set());
    assert(strictly_sorted(s) && s.to_set() == s.to_set());
    lemma_sorted_unique(t, s);
}

/// Inserting `key` at the place that the order gives it keeps the sequence
/// sorted and adds exactly `key` to its elements.
pub proof fn lemma_sorted_insert(s: Seq<TargetKey>, at: int, key: TargetKey)
    requires
        strictly_sorted(s),
        0 <= at <= s.len(),
        forall|k: int| 0 <= k < at ==> key_lt(#[trigger] s[k], key),
        at < s.len() ==> key_lt(key, s[at]),
    ensures
        strictly_sorted(s.insert(at, key)),
        s.insert(at, key).to_set() == s.to_set().insert(key),
        !s.contains(key),
{
    let t = s.insert(at, key);
    assert forall|i: int, j: int| 0 <= i < j < t.len() implies key_lt(
        #[trigger] t[i],
        #[trigger] t[j],
    ) by {
        if j == at {
            assert(t[i] == s[i]);
        } else if i == at {
            assert(t[j] == s[j - 1]);
            if j - 1 > at {
                assert(key_lt(s[at], s[j - 1]));
                lemma_key_lt_transitive(key, s[at], s[j - 1]);
            }
        } else {
            let si = if i < at { i } else { i - 1 };
            let sj = if j < at { j } else { j - 1 };
            assert(t[i] == s[si] && t[j] == s[sj]);
            assert(key_lt(s[si], s[sj]));
        }
    }
    assert forall|x: TargetKey| t.to_set().contains(x) <==> s.to_set().insert(key).contains(
        x,
    ) by {
        if t.contains(x) {
            let k = choose|k: int| 0 <= k < t.len() && t[k] == x;
            if k < at {
                assert(s[k] == x);
                assert(s.contains(x));
            } else if k > at {
                assert(s[k - 1] == x);
                assert(s.contains(x));
            }
        }
        if s.contains(x) {
            let k = choose|k: int| 0 <= k < s.len() && s[k] == x;
            if k < at {
                assert(t[k] == x);
            } else {
                assert(t[k + 1] == x);
            }
        }
        if x == key {
            assert(t[at] == x);
        }
    }
    assert(t.to_set() =~= s.to_set().insert(key));
    if s.contains(key) {
        let k = choose|k: int| 0 <= k < s.len() && s[k] == key;
        lemma_key_lt_irreflexive(key);
        if k < at {
            assert(key_lt(s[k], key));
        } else {
            if k > at {
                assert(key_lt(s[at], s[k]));
                lemma_key_lt_transitive(key, s[at], s[k]);
            }
        }
    }
}

/// Whether the elements of `set` can be listed in emission order. Every set
/// that is built from the empty set by insertions can.
pub open spec fn has_order(set: Set<TargetKey>) -> bool {
    exists|s: Seq<TargetKey>| strictly_sorted(s) && s.to_set() == set
}

/// Where a set has an emission order, `sorted_targets` is that order.
pub proof fn lemma_sorted_targets_exact(set: Set<TargetKey>)
    requires
        has_order(set),
    ensures
        strictly_sorted(sorted_targets(set)),
        sorted_targets(set).to_set() == set,
        sorted_targets(set).no_duplicates(),
{
    lemma_sorted_no_duplicates(sorted_targets(set));
}

/// The empty set has an emission order, the empty one.
pub proof fn lemma_has_order_empty()
    ensures
        has_order(Set::<TargetKey>::empty()),
        sorted_targets(Set::<TargetKey>::empty()) == Seq::<TargetKey>::empty(),
{
    let s = Seq::<TargetKey>::empty();
    assert(s.to_set() =~= Set::<TargetKey>::empty());
    assert(strictly_sorted(s) && s.to_set() == Set::<TargetKey>::empty());
    lemma_sorted_targets(s);
}

proof fn lemma_insert_position(s: Seq<TargetKey>, key: TargetKey) -> (at: int)
    requires
        strictly_sorted(s),
        !s.contains(key),
    ensures
        0 <= at <= s.len(),
        forall|k: int| 0 <= k < at ==> key_lt(#[trigger] s[k], key),
        at < s.len() ==> key_lt(key, s[at]),
    decreases s.len(),
{
    if s.len() == 0 {
        0
    } else {
        let n = s.len() - 1;
        let last = s[n];
        assert(s.contains(last));
        if key_lt(last, key) {
            assert forall|k: int| 0 <= k < s.len() implies key_lt(#[trigger] s[k], key) by {
                if k < n {
                    assert(key_lt(s[k], s[n]));
                    lemma_key_lt_transitive(s[k], last, key);
                }
            }
            s.len() as int
        } else {
            if !key_lt(key, last) {
                lemma_key_lt_total(last, key);
            }
            let head = s.drop_last();
            assert forall|i: int, j: int| 0 <= i < j < head.len() implies key_lt(
                #[trigger] head[i],
                #[trigger] head[j],
            ) by {
                assert(key_lt(s[i], s[j]));
            }
            if head.contains(key) {
                let i = choose|i: int| 0 <= i < head.len() && head[i] == key;
                assert(s[i] == key);
            }
            let at = lemma_insert_position(head, key);
            assert forall|k: int| 0 <= k < at implies key_lt(#[trigger] s[k], key) by {
                assert(head[k] == s[k]);
            }
            if at < head.len() {
                assert(head[at] == s[at]);
            }
            at
        }
    }
}

/// A set with an emission order keeps one when a target is added.
pub proof fn lemma_has_order_insert(set: Set<TargetKey>, key: TargetKey)
    requires
        has_order(set),
    ensures
        has_order(set.insert(key)),
{
    let s = sorted_targets(set);
    if set.contains(key) {
        assert(set.insert(key) =~= set);
    } else {
        assert(!s.contains(key));
        let at = lemma_insert_position(s, key);
        lemma_sorted_insert(s, at, key);
        let t = s.insert(at, key);
        assert(strictly_sorted(t) && t.to_set() == set.insert(key));
    }
}

/// The targets collected for one category of one source file. No target
/// occurs twice, and the targets are held in the order in which they are
/// emitted, whatever the order in which they arrived.
#[derive(Debug)]
pub struct TargetSet {
    entries: Vec<TargetSpec>,
}

impl View for TargetSet {
    type V = Set<TargetKey>;

    /// The targets as a set.
    open spec fn view(&self) -> Set<TargetKey> {
        self.ordered().to_set()
    }
}

impl TargetSet {
    /// The targets in emission order.
    pub closed spec fn ordered(&self) -> Seq<TargetKey> {
        keys_of(self.entries@)
    }

    /// The representation invariant: the targets are strictly sorted.
    pub open spec fn wf(&self) -> bool {
        strictly_sorted(self.ordered())
    }

    /// The empty set.
    pub fn new() -> (r: TargetSet)
        ensures
            r.wf(),
            r.ordered() == Seq::<TargetKey>::empty(),
            r@ == Set::<TargetKey>::empty(),
    {
        let r = TargetSet { entries: Vec::new() };
        assert(r.ordered() =~= Seq::<TargetKey>::empty());
        assert(r@ =~= Set::<TargetKey>::empty());
        r
    }

    /// The number of targets.
    pub fn len(&self) -> (r: usize)
        ensures
            r == self.ordered().len(),
    {
        self.entries.len()
    }

    /// Whether the set holds no target.
    pub fn is_empty(&self) -> (r: bool)
        ensures
            r == (self.ordered().len() == 0),
    {
        self.entries.len() == 0
    }

    /// The number of targets that sort strictly before `target`.
    fn rank_of(&self, target: &TargetSpec) -> (at: usize)
        requires
            self.wf(),
        ensures
            at <= self.ordered().len(),
            forall|k: int| 0 <= k < at ==> key_lt(#[trigger] self.ordered()[k], target@),
            at < self.ordered().len() ==> !key_lt(self.ordered()[at as int], target@),
    {
        let mut at: usize = 0;
        while at < self.entries.len() && self.entries[at].less(target)
            invariant
                at <= self.entries.len(),
                forall|k: int| 0 <= k < at ==> key_lt(#[trigger] self.ordered()[k], target@),
            decreases self.entries.len() - at,
        {
            at = at + 1;
        }
        at
    }

    /// Whether `target` is in the set.
    pub fn contains(&self, target: &TargetSpec) -> (r: bool)
        requires
            self.wf(),
        ensures
            r == self@.contains(target@),
    {
        let at = self.rank_of(target);
        let found = at < self.entries.len() && !target.less(&self.entries[at]);
        proof {
            let s = self.ordered();
            if found {
                lemma_key_lt_total(s[at as int], target@);
                assert(s.contains(target@));
            } else {
                lemma_sorted_insert(s, at as int, target@);
            }
        }
        found
    }

    /// Adds `target` to the set. Returns whether it was new; a target that
    /// is already present leaves the set as it was.
    pub fn insert(&mut self, target: TargetSpec) -> (inserted: bool)
        requires
            old(self).wf(),
        ensures
            final(self).wf(),
            inserted == !old(self)@.contains(target@),
            final(self)@ == old(self)@.insert(target@),
            !inserted ==> final(self).ordered() == old(self).ordered(),
            inserted ==> exists|at: int|
                0 <= at <= old(self).ordered().len() && final(self).ordered() == old(
                    self,
                ).ordered().insert(at, target@),
    {
        let at = self.rank_of(&target);
        let ghost s = self.ordered();
        if at < self.entries.len() && !target.less(&self.entries[at]) {
            proof {
                lemma_key_lt_total(s[at as int], target@);
                assert(s.contains(target@));
                assert(s.to_set().insert(target@) =~= s.to_set());
            }
            false
        } else {
            proof {
                lemma_sorted_insert(s, at as int, target@);
            }
            self.entries.insert(at, target);
            assert(self.ordered() =~= s.insert(at as int, target@));
            true
        }
    }

    /// The targets in emission order.
    pub fn to_vec(&self) -> (r: Vec<TargetSpec>)
        ensures
            keys_of(r@) == self.ordered(),
    {
        let mut r: Vec<TargetSpec> = Vec::new();
        let mut i: usize = 0;
        while i < self.entries.len()
            invariant
                i <= self.entries.len(),
                r.len() == i,
                forall|k: int| 0 <= k < i ==> r@[k]@ == self.entries@[k]@,
            decreases self.entries.len() - i,
        {
            r.push(self.entries[i].duplicate());
            i = i + 1;
        }
        assert(keys_of(r@) =~= self.ordered());
        r
    }
}

} // verus!
