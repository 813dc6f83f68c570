//! Finite sets of `i32`, kept as sequences in first-seen order.

use vstd::prelude::*;

use crate::text::{chars_of, lines, lines_of, parse_row, row_of, views, ParseError};

verus! {

/// The first occurrence of each value of `s`, in order.
pub open spec fn dedup(s: Seq<i32>) -> Seq<i32>
    decreases s.len(),
{
    if s.len() == 0 {
        s
    } else {
        let d = dedup(s.drop_last());
        if d.contains(s.last()) {
            d
        } else {
            d.push(s.last())
        }
    }
}

/// The first occurrence of each value of `a`, then of `b`, in order.
pub open spec fn union_seq(a: Seq<i32>, b: Seq<i32>) -> Seq<i32> {
    dedup(a + b)
}

/// The elements of `a`, in order, whose membership in `b` is `present`.
pub open spec fn select_seq(a: Seq<i32>, b: Seq<i32>, present: bool) -> Seq<i32>
    decreases a.len(),
{
    if a.len() == 0 {
        Seq::empty()
    } else {
        let s = select_seq(a.drop_last(), b, present);
        if b.contains(a.last()) == present {
            s.push(a.last())
        } else {
            s
        }
    }
}

/// The elements of `a` that occur in `b`, in `a`'s order.
pub open spec fn intersection_seq(a: Seq<i32>, b: Seq<i32>) -> Seq<i32> {
    select_seq(a, b, true)
}

/// The elements of `a` that do not occur in `b`, in `a`'s order.
pub open spec fn difference_seq(a: Seq<i32>, b: Seq<i32>) -> Seq<i32> {
    select_seq(a, b, false)
}

proof fn lemma_dedup(s: Seq<i32>)
    ensures
        dedup(s).no_duplicates(),
        forall|x: i32| #[trigger] dedup(s).contains(x) <==> s.contains(x),
    decreases s.len(),
{
    if s.len() > 0 {
        let p = s.drop_last();
        lemma_dedup(p);
        let d = dedup(p);
        assert forall|x: i32| s.contains(x) <==> (p.contains(x) || x == s.last()) by {
            if s.contains(x) {
                let j = choose|j: int| 0 <= j < s.len() && s[j] == x;
                if j < s.len() - 1 {
                    assert(p[j] == x);
                }
            }
            if p.contains(x) {
                let j = choose|j: int| 0 <= j < p.len() && p[j] == x;
                assert(s[j] == x);
            }
            if x == s.last() {
                assert(s[s.len() - 1] == x);
            }
        }
        if !d.contains(s.last()) {
            let w = d.push(s.last());
            assert forall|x: i32| w.contains(x) <==> (d.contains(x) || x == s.last()) by {
                if w.contains(x) {
                    let j = choose|j: int| 0 <= j < w.len() && w[j] == x;
                    if j < d.len() {
                        assert(d[j] == x);
                    }
                }
                if d.contains(x) {
                    let j = choose|j: int| 0 <= j < d.len() && d[j] == x;
                    assert(w[j] == x);
                }
                if x == s.last() {
                    assert(w[d.len() as int] == x);
                }
            }
            assert forall|i: int, j: int| 0 <= i < w.len() && 0 <= j < w.len() && i != j implies w[i]
                != w[j] by {
                if i < d.len() && j < d.len() {
                    assert(d[i] != d[j]);
                } else if i < d.len() {
                    assert(w[i] == d[i]);
                } else {
                    assert(w[j] == d[j]);
                }
            }
        }
    }
}

/// Deduplicating a prefix gives a prefix of the deduplicated whole.
proof fn lemma_dedup_prefix(s: Seq<i32>, k: int)
    requires
        0 <= k <= s.len(),
    ensures
        dedup(s.subrange(0, k)).len() <= dedup(s).len(),
        dedup(s).subrange(0, dedup(s.subrange(0, k)).len() as int) == dedup(s.subrange(0, k)),
    decreases s.len(),
{
    if k == s.len() {
        assert(s.subrange(0, k) =~= s);
        assert(dedup(s).subrange(0, dedup(s).len() as int) =~= dedup(s));
    } else {
        let p = s.drop_last();
        assert(p.subrange(0, k) =~= s.subrange(0, k));
        lemma_dedup_prefix(p, k);
        let d = dedup(p);
        let q = dedup(s.subrange(0, k));
        if !d.contains(s.last()) {
            assert(d.push(s.last()).subrange(0, q.len() as int) =~= d.subrange(0, q.len() as int));
        }
    }
}

/// A sequence without repeated values is its own deduplication.
proof fn lemma_dedup_distinct(s: Seq<i32>)
    requires
        s.no_duplicates(),
    ensures
        dedup(s) == s,
    decreases s.len(),
{
    if s.len() > 0 {
        let p = s.drop_last();
        assert(p.no_duplicates()) by {
            assert forall|i: int, j: int| 0 <= i < p.len() && 0 <= j < p.len() && i != j implies p[i]
                != p[j] by {
                assert(s[i] != s[j]);
            }
        }
        lemma_dedup_distinct(p);
        if p.contains(s.last()) {
            let j = choose|j: int| 0 <= j < p.len() && p[j] == s.last();
            assert(s[j] == s[s.len() - 1]);
        }
        assert(p.push(s.last()) =~= s);
    }
}

proof fn lemma_select_seq(a: Seq<i32>, b: Seq<i32>, present: bool)
    ensures
        forall|x: i32| #[trigger]
            select_seq(a, b, present).contains(x) <==> (a.contains(x) && b.contains(x)
                == present),
    decreases a.len(),
{
    if a.len() > 0 {
        let p = a.drop_last();
        lemma_select_seq(p, b, present);
        let s = select_seq(p, b, present);
        let r = select_seq(a, b, present);
        assert forall|x: i32| r.contains(x) <==> (a.contains(x) && b.contains(x) == present) by {
            if r.contains(x) {
                let j = choose|j: int| 0 <= j < r.len() && r[j] == x;
                if j < s.len() {
                    assert(s[j] == x);
                    assert(s.contains(x));
                    let k = choose|k: int| 0 <= k < p.len() && p[k] == x;
                    assert(a[k] == x);
                } else {
                    assert(a[a.len() - 1] == x);
                }
            }
            if a.contains(x) && b.contains(x) == present {
                let k = choose|k: int| 0 <= k < a.len() && a[k] == x;
                if k < a.len() - 1 {
                    assert(p[k] == x);
                    assert(p.contains(x));
                    assert(s.contains(x));
                    let j = choose|j: int| 0 <= j < s.len() && s[j] == x;
                    if b.contains(a.last()) == present {
                        assert(r == s.push(a.last()));
                        assert(r[j] == x);
                    } else {
                        assert(r[j] == x);
                    }
                } else {
                    assert(r[r.len() - 1] == x);
                }
            }
        }
    }
}

/// A union holds every element of both sets and nothing else, each value
/// exactly once; where the first set has no repeated value, the union begins
/// with it unchanged.
/// The intersection holds exactly the values that are in both sets, and the
/// difference exactly those of the first set that are not in the second, so
/// it shares no value with the second.
pub proof fn set_operation_laws(a: Seq<i32>, b: Seq<i32>)
    ensures
        forall|x: i32| #[trigger]
            union_seq(a, b).contains(x) <==> (a.contains(x) || b.contains(x)),
        union_seq(a, b).no_duplicates(),
        a.no_duplicates() ==> union_seq(a, b).len() >= a.len() && union_seq(a, b).subrange(
            0,
            a.len() as int,
        ) == a,
        forall|x: i32| #[trigger]
            intersection_seq(a, b).contains(x) <==> (a.contains(x) && b.contains(x)),
        forall|x: i32| #[trigger]
            difference_seq(a, b).contains(x) <==> (a.contains(x) && !b.contains(x)),
        forall|x: i32| difference_seq(a, b).contains(x) ==> !b.contains(x),
{
    let ab = a + b;
    lemma_dedup(ab);
    assert forall|x: i32| ab.contains(x) <==> (a.contains(x) || b.contains(x)) by {
        if ab.contains(x) {
            let j = choose|j: int| 0 <= j < ab.len() && ab[j] == x;
            if j < a.len() {
                assert(a[j] == x);
            } else {
                assert(b[j - a.len()] == x);
            }
        }
        if a.contains(x) {
            let j = choose|j: int| 0 <= j < a.len() && a[j] == x;
            assert(ab[j] == x);
        }
        if b.contains(x) {
            let j = choose|j: int| 0 <= j < b.len() && b[j] == x;
            assert(ab[j + a.len()] == x);
        }
    }
    if a.no_duplicates() {
        assert(ab.subrange(0, a.len() as int) =~= a);
        lemma_dedup_distinct(a);
        lemma_dedup_prefix(ab, a.len() as int);
    }
    lemma_select_seq(a, b, true);
    lemma_select_seq(a, b, false);
}

/// A finite set of integers, as the sequence of its elements.
#[derive(Debug, Clone, PartialEq)]
pub struct MathSet {
    pub elements: Vec<i32>,
}

impl View for MathSet {
    type V = Seq<i32>;

    open spec fn view(&self) -> Seq<i32> {
        self.elements@
    }
}

/// Whether `x` occurs in `v`.
fn occurs(v: &Vec<i32>, x: i32) -> (r: bool)
    ensures
        r == v@.contains(x),
{
    let mut i: usize = 0;
    while i < v.len()
        invariant
            0 <= i <= v.len(),
            forall|j: int| 0 <= j < i ==> v@[j] != x,
        decreases v.len() - i,
    {
        if v[i] == x {
            return true;
        }
        i = i + 1;
    }
    false
}

impl MathSet {
    /// The set with these elements, in this order.
    pub fn new(elements: Vec<i32>) -> (r: MathSet)
        ensures
            r@ == elements@,
    {
        MathSet { elements }
    }

    /// A copy of this set.
    pub fn duplicate(&self) -> (r: MathSet)
        ensures
            r@ == self@,
    {
        MathSet { elements: self.elements.clone() }
    }

    /// The first occurrence of each value of `self`, then of `other`, in
    /// order.
    pub fn union(&self, other: &MathSet) -> (r: MathSet)
        ensures
            r@ == union_seq(self@, other@),
    {
        let mut all = self.elements.clone();
        let mut rest = other.elements.clone();
        all.append(&mut rest);
        let mut out: Vec<i32> = Vec::new();
        let mut i: usize = 0;
        proof {
            assert(all@.subrange(0, 0) =~= Seq::<i32>::empty());
        }
        while i < all.len()
            invariant
                all@ == self@ + other@,
                0 <= i <= all@.len(),
                out@ == dedup(all@.subrange(0, i as int)),
            decreases all@.len() - i,
        {
            let x = all[i];
            proof {
                assert(all@.subrange(0, i + 1).drop_last() =~= all@.subrange(0, i as int));
            }
            if !occurs(&out, x) {
                out.push(x);
            }
            i = i + 1;
        }
        proof {
            assert(all@.subrange(0, all@.len() as int) =~= all@);
        }
        MathSet { elements: out }
    }

    fn select(&self, other: &MathSet, present: bool) -> (r: MathSet)
        ensures
            r@ == select_seq(self@, other@, present),
    {
        let mut out: Vec<i32> = Vec::new();
        let mut i: usize = 0;
        while i < self.elements.len()
            invariant
                0 <= i <= self@.len(),
                out@ == select_seq(self@.subrange(0, i as int), other@, present),
            decreases self@.len() - i,
        {
            let x = self.elements[i];
            proof {
                assert(self@.subrange(0, i + 1).drop_last() =~= self@.subrange(0, i as int));
            }
            if occurs(&other.elements, x) == present {
                out.push(x);
            }
            i = i + 1;
        }
        proof {
            assert(self@.subrange(0, self@.len() as int) =~= self@);
        }
        MathSet { elements: out }
    }

    /// The elements of `self` that occur in `other`, each time `self` has them.
    pub fn intersection(&self, other: &MathSet) -> (r: MathSet)
        ensures
            r@ == intersection_seq(self@, other@),
    {
        self.select(other, true)
    }

    /// The elements of `self` that do not occur in `other`.
    pub fn difference(&self, other: &MathSet) -> (r: MathSet)
        ensures
            r@ == difference_seq(self@, other@),
    {
        self.select(other, false)
    }
}

/// The sets that `lines` hold, one per line, or nothing if any line fails.
pub open spec fn sets_of(lines: Seq<Seq<char>>) -> Option<Seq<Seq<i32>>>
    decreases lines.len(),
{
    if lines.len() == 0 {
        Some(Seq::empty())
    } else {
        match (sets_of(lines.drop_last()), row_of(lines.last())) {
            (Some(v), Some(x)) => Some(v.push(x)),
            _ => None,
        }
    }
}

pub open spec fn set_views(v: Seq<MathSet>) -> Seq<Seq<i32>> {
    v.map_values(|m: MathSet| m@)
}

proof fn lemma_sets_none(t: Seq<Seq<char>>, k: int)
    requires
        0 <= k <= t.len(),
        sets_of(t.subrange(0, k)) is None,
    ensures
        sets_of(t) is None,
    decreases t.len() - k,
{
    if k < t.len() {
        assert(t.subrange(0, k + 1).drop_last() =~= t.subrange(0, k));
        lemma_sets_none(t, k + 1);
    } else {
        assert(t.subrange(0, k) =~= t);
    }
}

/// Reads one set per line of `text`, each a comma-separated list of
/// integers; the first field that is not an integer fails the whole text.
pub fn parse_sets(text: &str) -> (r: Result<Vec<MathSet>, ParseError>)
    ensures
        match sets_of(lines_of(text@)) {
            Some(ss) => r matches Ok(v) && set_views(v@) == ss,
            None => r == Err::<Vec<MathSet>, ParseError>(ParseError::InvalidInteger),
        },
{
    let chars = chars_of(text);
    let ls = lines(&chars);
    let ghost t = views(ls@);
    let mut out: Vec<MathSet> = Vec::new();
    let mut i: usize = 0;
    proof {
        assert(t.subrange(0, 0) =~= Seq::<Seq<char>>::empty());
        assert(set_views(out@) =~= Seq::<Seq<i32>>::empty());
    }
    while i < ls.len()
        invariant
            t == views(ls@),
            t == lines_of(text@),
            0 <= i <= ls@.len(),
            sets_of(t.subrange(0, i as int)) == Some(set_views(out@)),
        decreases ls@.len() - i,
    {
        let row = parse_row(&ls[i]);
        proof {
            assert(t.subrange(0, i + 1).drop_last() =~= t.subrange(0, i as int));
            assert(t.subrange(0, i + 1).last() == ls@[i as int]@);
        }
        match row {
            Some(v) => {
                let ghost before = set_views(out@);
                out.push(MathSet::new(v));
                proof {
                    assert(set_views(out@) =~= before.push(out@.last()@));
                }
            },
            None => {
                proof {
                    lemma_sets_none(t, i + 1);
                }
                return Err(ParseError::InvalidInteger);
            },
        }
        i = i + 1;
    }
    proof {
        assert(t.subrange(0, t.len() as int) =~= t);
    }
    Ok(out)
}

/// Left fold of union over `ss`, starting from its first set.
pub open spec fn fold_union(ss: Seq<Seq<i32>>) -> Seq<i32>
    decreases ss.len(),
{
    if ss.len() <= 1 {
        ss[0]
    } else {
        union_seq(fold_union(ss.drop_last()), ss.last())
    }
}

/// Left fold of intersection over `ss`, starting from its first set.
pub open spec fn fold_intersection(ss: Seq<Seq<i32>>) -> Seq<i32>
    decreases ss.len(),
{
    if ss.len() <= 1 {
        ss[0]
    } else {
        intersection_seq(fold_intersection(ss.drop_last()), ss.last())
    }
}

/// Left fold of difference over `ss`, starting from its first set.
pub open spec fn fold_difference(ss: Seq<Seq<i32>>) -> Seq<i32>
    decreases ss.len(),
{
    if ss.len() <= 1 {
        ss[0]
    } else {
        difference_seq(fold_difference(ss.drop_last()), ss.last())
    }
}

/// The union, intersection and difference of a run of sets.
pub struct SetTotals {
    pub union: MathSet,
    pub intersection: MathSet,
    pub difference: MathSet,
}

/// Folds the first `count` sets from left to right with union, intersection
/// and difference, starting from the first set. Nothing when `count` is 0 or
/// more than there are sets.
pub fn reduce_sets(sets: &Vec<MathSet>, count: usize) -> (r: Option<SetTotals>)
    ensures
        r is None <==> (count == 0 || count > sets@.len()),
        r matches Some(t) ==> {
            let ss = set_views(sets@).subrange(0, count as int);
            &&& t.union@ == fold_union(ss)
            &&& t.intersection@ == fold_intersection(ss)
            &&& t.difference@ == fold_difference(ss)
        },
{
    if count == 0 || count > sets.len() {
        return None;
    }
    let ghost all = set_views(sets@);
    let mut u = sets[0].duplicate();
    let mut n = sets[0].duplicate();
    let mut d = sets[0].duplicate();
    proof {
        assert(all.subrange(0, 1).len() == 1);
    }
    let mut i: usize = 1;
    while i < count
        invariant
            1 <= i <= count <= sets@.len(),
            all == set_views(sets@),
            u@ == fold_union(all.subrange(0, i as int)),
            n@ == fold_intersection(all.subrange(0, i as int)),
            d@ == fold_difference(all.subrange(0, i as int)),
        decreases count - i,
    {
        let cur = &sets[i];
        proof {
            assert(all.subrange(0, i + 1).drop_last() =~= all.subrange(0, i as int));
            assert(all.subrange(0, i + 1).last() == cur@);
        }
        u = u.union(cur);
        n = n.intersection(cur);
        d = d.difference(cur);
        i = i + 1;
    }
    Some(SetTotals { union: u, intersection: n, difference: d })
}

} // verus!
