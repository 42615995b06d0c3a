use vstd::prelude::*;

verus! {

broadcast use vstd::seq_lib::group_seq_properties;

/// The values of `s` are in strictly ascending order.
pub open spec fn sorted_strict(s: Seq<u64>) -> bool {
    forall|i: int, j: int| 0 <= i < j < s.len() ==> s[i] < s[j]
}

/// `x` occurs somewhere before `y` in `s`.
pub open spec fn ordered_pair_in(s: Seq<u64>, x: u64, y: u64) -> bool {
    exists|p: int, q: int| 0 <= p < q < s.len() && s[p] == x && s[q] == y
}

/// Any two values of `sub` appear in `sup` in that same relative order: for
/// duplicate-free sequences this says `sub` keeps `sup`'s ordering.
pub open spec fn keeps_relative_order(sub: Seq<u64>, sup: Seq<u64>) -> bool {
    forall|p: int, q: int|
        0 <= p < q < sub.len() ==> ordered_pair_in(sup, #[trigger] sub[p], #[trigger] sub[q])
}

/// A finite set of candidate values for one variable.
///
/// A domain abstractly is the sequence of its values, without duplicates.
/// `remove` and `restrict_to` are pure: they return a new domain and leave the
/// receiver untouched; the returned domain holds exactly the receiver's values
/// that survive the restriction, and is never larger than the receiver.
pub trait Domain: Sized {
    /// The values of this domain, in iteration order.
    spec fn vals(&self) -> Seq<u64>;

    /// The representation invariant of this domain.
    spec fn inv(&self) -> bool;

    /// A well-formed domain holds no duplicate values.
    proof fn lemma_inv_distinct(&self)
        requires
            self.inv(),
        ensures
            self.vals().no_duplicates(),
    ;

    /// Returns true if the domain contains the given value.
    fn contains(&self, value: u64) -> (r: bool)
        requires
            self.inv(),
        ensures
            r == self.vals().contains(value),
    ;

    /// Returns the number of values in the domain.
    fn size(&self) -> (r: usize)
        requires
            self.inv(),
        ensures
            r == self.vals().len(),
    ;

    /// Returns true if the domain is empty.
    fn is_empty(&self) -> (r: bool)
        requires
            self.inv(),
        ensures
            r == (self.vals().len() == 0),
    ;

    /// Returns all values in the domain as a vector, in iteration order.
    fn values(&self) -> (r: Vec<u64>)
        requires
            self.inv(),
        ensures
            r@ == self.vals(),
    ;

    /// Creates a copy of this domain with the given value removed.
    fn remove(&self, value: u64) -> (r: Self)
        requires
            self.inv(),
        ensures
            r.inv(),
            forall|x: u64| #[trigger]
                r.vals().contains(x) <==> self.vals().contains(x) && x != value,
            r.vals().len() <= self.vals().len(),
            keeps_relative_order(r.vals(), self.vals()),
    ;

    /// Creates a copy of this domain keeping only the given values.
    fn restrict_to(&self, values_to_keep: &Vec<u64>) -> (r: Self)
        requires
            self.inv(),
        ensures
            r.inv(),
            forall|x: u64| #[trigger]
                r.vals().contains(x) <==> self.vals().contains(x) && values_to_keep@.contains(x),
            r.vals().len() <= self.vals().len(),
            keeps_relative_order(r.vals(), self.vals()),
    ;

    /// An independent copy of this domain.
    fn duplicate(&self) -> (r: Self)
        requires
            self.inv(),
        ensures
            r.inv(),
            r.vals() == self.vals(),
    ;
}

#[verifier::loop_isolation(false)]
fn vec_contains(v: &Vec<u64>, x: u64) -> (r: bool)
    ensures
        r == v@.contains(x),
{
    let mut i: usize = 0;
    while i < v.len()
        invariant
            i <= v@.len(),
            forall|j: int| 0 <= j < i ==> v@[j] != x,
        decreases v@.len() - i,
    {
        if v[i] == x {
            return true;
        }
        i += 1;
    }
    proof {
        if v@.contains(x) {
            let j = choose|j: int| 0 <= j < v@.len() && v@[j] == x;
            assert(v@[j] != x);
        }
    }
    false
}

#[verifier::loop_isolation(false)]
fn sorted_contains(v: &Vec<u64>, x: u64) -> (r: bool)
    requires
        sorted_strict(v@),
    ensures
        r == v@.contains(x),
{
    let mut lo: usize = 0;
    let mut hi: usize = v.len();
    while lo < hi
        invariant
            lo <= hi <= v@.len(),
            forall|j: int| 0 <= j < lo ==> v@[j] < x,
            forall|j: int| hi <= j < v@.len() ==> v@[j] > x,
        decreases hi - lo,
    {
        let mid = lo + (hi - lo) / 2;
        let y = v[mid];
        if y == x {
            proof {
                assert(v@[mid as int] == x);
            }
            return true;
        } else if y < x {
            lo = mid + 1;
        } else {
            hi = mid;
        }
    }
    proof {
        if v@.contains(x) {
            let j = choose|j: int| 0 <= j < v@.len() && v@[j] == x;
            assert(j < lo || hi <= j);
        }
    }
    false
}

/// The elements of `v` below index `i`, keeping those different from `value`.
#[verifier::loop_isolation(false)]
fn filter_ne(v: &Vec<u64>, value: u64) -> (r: Vec<u64>)
    ensures
        forall|x: u64| r@.contains(x) <==> v@.contains(x) && x != value,
        r@.len() <= v@.len(),
        v@.no_duplicates() ==> r@.no_duplicates(),
        sorted_strict(v@) ==> sorted_strict(r@),
        keeps_relative_order(r@, v@),
{
    let mut r: Vec<u64> = Vec::new();
    let ghost mut srcs: Seq<int> = Seq::empty();
    let mut i: usize = 0;
    while i < v.len()
        invariant
            i <= v@.len(),
            r@.len() <= i,
            forall|x: u64|
                r@.contains(x) <==> ((exists|j: int| 0 <= j < i && v@[j] == x) && x != value),
            forall|p: int| 0 <= p < r@.len() ==> exists|j: int| 0 <= j < i && v@[j] == #[trigger] r@[p],
            v@.no_duplicates() ==> r@.no_duplicates(),
            sorted_strict(v@) ==> sorted_strict(r@),
            srcs.len() == r@.len(),
            forall|p: int| 0 <= p < r@.len() ==> 0 <= #[trigger] srcs[p] < i && v@[srcs[p]] == r@[p],
            forall|p: int, q: int| 0 <= p < q < r@.len() ==> srcs[p] < srcs[q],
        decreases v@.len() - i,
    {
        let y = v[i];
        if y != value {
            proof {
                if v@.no_duplicates() && r@.contains(y) {
                    let j = choose|j: int| 0 <= j < i && v@[j] == y;
                    assert(v@[j] == v@[i as int]);
                }
                if sorted_strict(v@) && r@.len() > 0 {
                    let p = r@.len() - 1;
                    assert(r@.contains(r@[p]));
                    let j = choose|j: int| 0 <= j < i && v@[j] == r@[p];
                    assert(v@[j] < v@[i as int]);
                }
            }
            r.push(y);
            proof {
                srcs = srcs.push(i as int);
                assert(r@[r@.len() - 1] == y);
                assert forall|x: u64| r@.contains(x) implies ((exists|j: int|
                    0 <= j < i + 1 && v@[j] == x) && x != value) by {
                    let p = choose|p: int| 0 <= p < r@.len() && r@[p] == x;
                    if p < r@.len() - 1 {
                        assert(holds_value(r@.drop_last(), x));
                    } else {
                        assert(v@[i as int] == x);
                    }
                }
            }
        }
        i += 1;
    }
    proof {
        assert forall|x: u64| v@.contains(x) && x != value implies r@.contains(x) by {
            let j = choose|j: int| 0 <= j < v@.len() && v@[j] == x;
            assert((exists|j2: int| 0 <= j2 < v@.len() && v@[j2] == x) && x != value);
        }
        assert forall|p: int, q: int| 0 <= p < q < r@.len() implies ordered_pair_in(
            v@,
            #[trigger] r@[p],
            #[trigger] r@[q],
        ) by {
            assert(v@[srcs[p]] == r@[p] && v@[srcs[q]] == r@[q] && srcs[p] < srcs[q]);
        }
    }
    r
}

/// Helper naming: a sequence contains a value.
pub open spec fn holds_value(s: Seq<u64>, x: u64) -> bool {
    s.contains(x)
}

/// The elements of `v`, keeping those contained in `keep`.
#[verifier::loop_isolation(false)]
fn filter_keep(v: &Vec<u64>, keep: &Vec<u64>) -> (r: Vec<u64>)
    ensures
        forall|x: u64| r@.contains(x) <==> v@.contains(x) && keep@.contains(x),
        r@.len() <= v@.len(),
        v@.no_duplicates() ==> r@.no_duplicates(),
        sorted_strict(v@) ==> sorted_strict(r@),
        keeps_relative_order(r@, v@),
{
    let mut r: Vec<u64> = Vec::new();
    let ghost mut srcs: Seq<int> = Seq::empty();
    let mut i: usize = 0;
    while i < v.len()
        invariant
            i <= v@.len(),
            r@.len() <= i,
            forall|x: u64|
                r@.contains(x) <==> ((exists|j: int| 0 <= j < i && v@[j] == x) && keep@.contains(
                    x,
                )),
            forall|p: int| 0 <= p < r@.len() ==> exists|j: int| 0 <= j < i && v@[j] == #[trigger] r@[p],
            v@.no_duplicates() ==> r@.no_duplicates(),
            sorted_strict(v@) ==> sorted_strict(r@),
            srcs.len() == r@.len(),
            forall|p: int| 0 <= p < r@.len() ==> 0 <= #[trigger] srcs[p] < i && v@[srcs[p]] == r@[p],
            forall|p: int, q: int| 0 <= p < q < r@.len() ==> srcs[p] < srcs[q],
        decreases v@.len() - i,
    {
        let y = v[i];
        if vec_contains(keep, y) {
            proof {
                if v@.no_duplicates() && r@.contains(y) {
                    let j = choose|j: int| 0 <= j < i && v@[j] == y;
                    assert(v@[j] == v@[i as int]);
                }
                if sorted_strict(v@) && r@.len() > 0 {
                    let p = r@.len() - 1;
                    assert(r@.contains(r@[p]));
                    let j = choose|j: int| 0 <= j < i && v@[j] == r@[p];
                    assert(v@[j] < v@[i as int]);
                }
            }
            r.push(y);
            proof {
                srcs = srcs.push(i as int);
                assert(r@[r@.len() - 1] == y);
                assert forall|x: u64| r@.contains(x) implies ((exists|j: int|
                    0 <= j < i + 1 && v@[j] == x) && keep@.contains(x)) by {
                    let p = choose|p: int| 0 <= p < r@.len() && r@[p] == x;
                    if p < r@.len() - 1 {
                        assert(holds_value(r@.drop_last(), x));
                    } else {
                        assert(v@[i as int] == x);
                    }
                }
            }
        }
        i += 1;
    }
    proof {
        assert forall|x: u64| v@.contains(x) && keep@.contains(x) implies r@.contains(x) by {
            let j = choose|j: int| 0 <= j < v@.len() && v@[j] == x;
            assert((exists|j2: int| 0 <= j2 < v@.len() && v@[j2] == x) && keep@.contains(x));
        }
        assert forall|p: int, q: int| 0 <= p < q < r@.len() implies ordered_pair_in(
            v@,
            #[trigger] r@[p],
            #[trigger] r@[q],
        ) by {
            assert(v@[srcs[p]] == r@[p] && v@[srcs[q]] == r@[q] && srcs[p] < srcs[q]);
        }
    }
    r
}

/// The values of `v` with later duplicates dropped, keeping first occurrences
/// in order.
#[verifier::loop_isolation(false)]
fn dedup_insertion(v: &Vec<u64>) -> (r: Vec<u64>)
    ensures
        forall|x: u64| r@.contains(x) <==> v@.contains(x),
        r@.no_duplicates(),
        keeps_relative_order(r@, v@),
{
    let mut r: Vec<u64> = Vec::new();
    let ghost mut srcs: Seq<int> = Seq::empty();
    let mut i: usize = 0;
    while i < v.len()
        invariant
            i <= v@.len(),
            forall|x: u64| r@.contains(x) <==> (exists|j: int| 0 <= j < i && v@[j] == x),
            r@.no_duplicates(),
            srcs.len() == r@.len(),
            forall|p: int| 0 <= p < r@.len() ==> 0 <= #[trigger] srcs[p] < i && v@[srcs[p]] == r@[p],
            forall|p: int, q: int| 0 <= p < q < r@.len() ==> srcs[p] < srcs[q],
        decreases v@.len() - i,
    {
        let y = v[i];
        if !vec_contains(&r, y) {
            r.push(y);
            proof {
                srcs = srcs.push(i as int);
                assert(r@[r@.len() - 1] == y);
                assert forall|x: u64| r@.contains(x) implies (exists|j: int|
                    0 <= j < i + 1 && v@[j] == x) by {
                    let p = choose|p: int| 0 <= p < r@.len() && r@[p] == x;
                    if p < r@.len() - 1 {
                        assert(holds_value(r@.drop_last(), x));
                    } else {
                        assert(v@[i as int] == x);
                    }
                }
            }
        }
        i += 1;
    }
    proof {
        assert forall|x: u64| v@.contains(x) implies r@.contains(x) by {
            let j = choose|j: int| 0 <= j < v@.len() && v@[j] == x;
            assert(exists|j2: int| 0 <= j2 < v@.len() && v@[j2] == x);
        }
        assert forall|p: int, q: int| 0 <= p < q < r@.len() implies ordered_pair_in(
            v@,
            #[trigger] r@[p],
            #[trigger] r@[q],
        ) by {
            assert(v@[srcs[p]] == r@[p] && v@[srcs[q]] == r@[q] && srcs[p] < srcs[q]);
        }
    }
    r
}

/// The values of `v` sorted ascending with duplicates dropped.
#[verifier::loop_isolation(false)]
fn sort_dedup(v: &Vec<u64>) -> (r: Vec<u64>)
    ensures
        forall|x: u64| r@.contains(x) <==> v@.contains(x),
        sorted_strict(r@),
{
    let mut r: Vec<u64> = Vec::new();
    let mut i: usize = 0;
    while i < v.len()
        invariant
            i <= v@.len(),
            forall|x: u64| r@.contains(x) <==> (exists|j: int| 0 <= j < i && v@[j] == x),
            sorted_strict(r@),
        decreases v@.len() - i,
    {
        let y = v[i];
        let ghost r0 = r@;
        // find the insertion position for y
        let mut p: usize = 0;
        while p < r.len() && r[p] < y
            invariant
                p <= r@.len(),
                forall|q: int| 0 <= q < p ==> r@[q] < y,
            decreases r@.len() - p,
        {
            p += 1;
        }
        if p == r.len() || r[p] > y {
            r.insert(p, y);
            proof {
                r0.insert_ensures(p as int, y);
                assert forall|a: int, b: int| 0 <= a < b < r@.len() implies r@[a] < r@[b] by {
                    let a0 = if a < p as int { a } else { a - 1 };
                    let b0 = if b < p as int { b } else { b - 1 };
                    if a < p as int {
                        assert(r@[a] == r0[a0]);
                    } else if a == p as int {
                        assert(r@[a] == y);
                    } else {
                        assert(r@[a] == r0[a0]);
                    }
                    if b < p as int {
                        assert(r@[b] == r0[b0]);
                    } else if b == p as int {
                        assert(r@[b] == y);
                    } else {
                        assert(r@[b] == r0[b0]);
                    }
                    if b == p as int {
                        assert(a0 < p as int);
                        assert(r0[a0] < y);
                    } else if a == p as int {
                        assert(p as int <= b0 < r0.len());
                        assert(r0[b0] >= y);
                        assert(r0[b0] != y) by {
                            if r0[b0] == y {
                                assert(r0.contains(y));
                                let j = choose|j: int| 0 <= j < i && v@[j] == y;
                                assert(false);
                            }
                        }
                    }
                }
                assert forall|x: u64| r@.contains(x) implies ((exists|j: int|
                    0 <= j < i + 1 && v@[j] == x)) by {
                    let q = choose|q: int| 0 <= q < r@.len() && r@[q] == x;
                    if q == p as int {
                        assert(v@[i as int] == x);
                    } else {
                        let q0 = if q < p as int { q } else { q - 1 };
                        assert(r0[q0] == x);
                        assert(r0.contains(x));
                    }
                }
                assert forall|x: u64| ((exists|j: int| 0 <= j < i + 1 && v@[j] == x)) implies r@
                    .contains(x) by {
                    if x == y {
                        assert(r@[p as int] == x);
                    } else {
                        let j = choose|j: int| 0 <= j < i + 1 && v@[j] == x;
                        if j < i as int {
                            assert(r0.contains(x));
                            let q0 = choose|q0: int| 0 <= q0 < r0.len() && r0[q0] == x;
                            let q = if q0 < p as int { q0 } else { q0 + 1 };
                            assert(r@[q] == x);
                        } else {
                            assert(v@[j] == y);
                        }
                    }
                }
            }
        } else {
            proof {
                assert(r@[p as int] == y);
                assert(r@.contains(y));
                assert forall|x: u64| r@.contains(x) implies (exists|j: int|
                    0 <= j < i + 1 && v@[j] == x) by {
                    assert(r0.contains(x));
                }
                assert forall|x: u64| (exists|j: int| 0 <= j < i + 1 && v@[j] == x) implies r@
                    .contains(x) by {
                    let j = choose|j: int| 0 <= j < i + 1 && v@[j] == x;
                    if j == i as int {
                        assert(x == y);
                    } else {
                        assert(exists|j2: int| 0 <= j2 < i && v@[j2] == x);
                    }
                }
            }
        }
        i += 1;
    }
    proof {
        assert forall|x: u64| v@.contains(x) implies r@.contains(x) by {
            let j = choose|j: int| 0 <= j < v@.len() && v@[j] == x;
            assert(exists|j2: int| 0 <= j2 < v@.len() && v@[j2] == x);
        }
    }
    r
}

/// The integers of the inclusive range `start..=end`, ascending; empty when
/// `start > end`.
#[verifier::loop_isolation(false)]
fn range_values(start: u64, end: u64) -> (r: Vec<u64>)
    ensures
        forall|x: u64| r@.contains(x) <==> start <= x <= end,
        sorted_strict(r@),
{
    let mut r: Vec<u64> = Vec::new();
    if start > end {
        proof {
            assert forall|x: u64| r@.contains(x) implies start <= x <= end by {
                assert(false);
            }
        }
        return r;
    }
    let mut cur = start;
    while cur < end
        invariant
            start <= cur <= end,
            r@.len() == cur - start,
            forall|j: int| 0 <= j < r@.len() ==> r@[j] == start + j,
        decreases end - cur,
    {
        r.push(cur);
        cur += 1;
    }
    r.push(end);
    proof {
        assert forall|x: u64| start <= x <= end implies r@.contains(x) by {
            assert(r@[(x - start) as int] == x);
        }
        assert forall|x: u64| r@.contains(x) implies start <= x <= end by {
            let j = choose|j: int| 0 <= j < r@.len() && r@[j] == x;
        }
    }
    r
}

fn clone_values(v: &Vec<u64>) -> (r: Vec<u64>)
    ensures
        r@ == v@,
{
    let mut r: Vec<u64> = Vec::new();
    let mut i: usize = 0;
    while i < v.len()
        invariant
            i <= v@.len(),
            r@ =~= v@.subrange(0, i as int),
        decreases v@.len() - i,
    {
        r.push(v[i]);
        i += 1;
    }
    proof {
        assert(r@ =~= v@);
    }
    r
}

/// Domain implementation with hash-set flavor: insertion iteration order,
/// membership by scanning. Kept as its own representation so problems built
/// against it keep their iteration behavior.
pub struct HashSetDomain {
    values: Vec<u64>,
}

impl HashSetDomain {
    /// Create a new domain from a collection of values; duplicates are
    /// dropped, first occurrences kept in order.
    pub fn new(values: Vec<u64>) -> (r: HashSetDomain)
        ensures
            r.inv(),
            forall|x: u64| #[trigger] r.vals().contains(x) <==> values@.contains(x),
            keeps_relative_order(r.vals(), values@),
    {
        HashSetDomain { values: dedup_insertion(&values) }
    }

    /// Create a domain holding the inclusive integer range `start..=end`.
    pub fn from_range(start: u64, end: u64) -> (r: HashSetDomain)
        ensures
            r.inv(),
            forall|x: u64| #[trigger] r.vals().contains(x) <==> start <= x <= end,
    {
        let r = HashSetDomain { values: range_values(start, end) };
        proof {
            sorted_strict_implies_no_duplicates(r.values@);
        }
        r
    }
}

proof fn sorted_strict_implies_no_duplicates(s: Seq<u64>)
    requires
        sorted_strict(s),
    ensures
        s.no_duplicates(),
{
}

impl Domain for HashSetDomain {
    closed spec fn vals(&self) -> Seq<u64> {
        self.values@
    }

    closed spec fn inv(&self) -> bool {
        self.values@.no_duplicates()
    }

    proof fn lemma_inv_distinct(&self) {
    }

    fn contains(&self, value: u64) -> (r: bool) {
        vec_contains(&self.values, value)
    }

    fn size(&self) -> (r: usize) {
        self.values.len()
    }

    fn is_empty(&self) -> (r: bool) {
        self.values.len() == 0
    }

    fn values(&self) -> (r: Vec<u64>) {
        clone_values(&self.values)
    }

    fn remove(&self, value: u64) -> (r: Self) {
        HashSetDomain { values: filter_ne(&self.values, value) }
    }

    fn restrict_to(&self, values_to_keep: &Vec<u64>) -> (r: Self) {
        HashSetDomain { values: filter_keep(&self.values, values_to_keep) }
    }

    fn duplicate(&self) -> (r: Self) {
        HashSetDomain { values: clone_values(&self.values) }
    }
}

/// Domain implementation with ordered-set flavor: ascending iteration order,
/// membership by binary search.
pub struct BTreeSetDomain {
    values: Vec<u64>,
}

impl BTreeSetDomain {
    /// Create a new domain from a collection of values; the values are sorted
    /// ascending and duplicates are dropped.
    pub fn new(values: Vec<u64>) -> (r: BTreeSetDomain)
        ensures
            r.inv(),
            forall|x: u64| #[trigger] r.vals().contains(x) <==> values@.contains(x),
            sorted_strict(r.vals()),
    {
        BTreeSetDomain { values: sort_dedup(&values) }
    }

    /// Create a domain holding the inclusive integer range `start..=end`.
    pub fn from_range(start: u64, end: u64) -> (r: BTreeSetDomain)
        ensures
            r.inv(),
            forall|x: u64| #[trigger] r.vals().contains(x) <==> start <= x <= end,
            sorted_strict(r.vals()),
    {
        BTreeSetDomain { values: range_values(start, end) }
    }
}

impl BTreeSetDomain {
    /// The values of a well-formed ordered-set domain ascend strictly.
    pub proof fn lemma_sorted(&self)
        requires
            self.inv(),
        ensures
            sorted_strict(self.vals()),
    {
    }
}

impl Domain for BTreeSetDomain {
    closed spec fn vals(&self) -> Seq<u64> {
        self.values@
    }

    closed spec fn inv(&self) -> bool {
        sorted_strict(self.values@)
    }

    proof fn lemma_inv_distinct(&self) {
        sorted_strict_implies_no_duplicates(self.values@);
    }

    fn contains(&self, value: u64) -> (r: bool) {
        sorted_contains(&self.values, value)
    }

    fn size(&self) -> (r: usize) {
        self.values.len()
    }

    fn is_empty(&self) -> (r: bool) {
        self.values.len() == 0
    }

    fn values(&self) -> (r: Vec<u64>) {
        clone_values(&self.values)
    }

    fn remove(&self, value: u64) -> (r: Self) {
        BTreeSetDomain { values: filter_ne(&self.values, value) }
    }

    fn restrict_to(&self, values_to_keep: &Vec<u64>) -> (r: Self) {
        BTreeSetDomain { values: filter_keep(&self.values, values_to_keep) }
    }

    fn duplicate(&self) -> (r: Self) {
        BTreeSetDomain { values: clone_values(&self.values) }
    }
}

/// Domain implementation using a plain vector: insertion iteration order,
/// linear lookup; useful for small domains.
pub struct VecDomain {
    values: Vec<u64>,
}

impl VecDomain {
    /// Create a new domain from a collection of values; duplicates are
    /// dropped, first occurrences kept in order.
    pub fn new(values: Vec<u64>) -> (r: VecDomain)
        ensures
            r.inv(),
            forall|x: u64| #[trigger] r.vals().contains(x) <==> values@.contains(x),
            keeps_relative_order(r.vals(), values@),
    {
        VecDomain { values: dedup_insertion(&values) }
    }

    /// Create a domain holding the inclusive integer range `start..=end`.
    pub fn from_range(start: u64, end: u64) -> (r: VecDomain)
        ensures
            r.inv(),
            forall|x: u64| #[trigger] r.vals().contains(x) <==> start <= x <= end,
    {
        let r = VecDomain { values: range_values(start, end) };
        proof {
            sorted_strict_implies_no_duplicates(r.values@);
        }
        r
    }
}

impl Domain for VecDomain {
    closed spec fn vals(&self) -> Seq<u64> {
        self.values@
    }

    closed spec fn inv(&self) -> bool {
        self.values@.no_duplicates()
    }

    proof fn lemma_inv_distinct(&self) {
    }

    fn contains(&self, value: u64) -> (r: bool) {
        vec_contains(&self.values, value)
    }

    fn size(&self) -> (r: usize) {
        self.values.len()
    }

    fn is_empty(&self) -> (r: bool) {
        self.values.len() == 0
    }

    fn values(&self) -> (r: Vec<u64>) {
        clone_values(&self.values)
    }

    fn remove(&self, value: u64) -> (r: Self) {
        VecDomain { values: filter_ne(&self.values, value) }
    }

    fn restrict_to(&self, values_to_keep: &Vec<u64>) -> (r: Self) {
        VecDomain { values: filter_keep(&self.values, values_to_keep) }
    }

    fn duplicate(&self) -> (r: Self) {
        VecDomain { values: clone_values(&self.values) }
    }
}

/// Domain implementation using a sorted vector: ascending iteration order,
/// binary-search lookup, duplicates dropped on construction.
pub struct SortedVecDomain {
    values: Vec<u64>,
}

impl SortedVecDomain {
    /// Create a new domain from a collection of values; the values are sorted
    /// ascending and duplicates are dropped.
    pub fn new(values: Vec<u64>) -> (r: SortedVecDomain)
        ensures
            r.inv(),
            forall|x: u64| #[trigger] r.vals().contains(x) <==> values@.contains(x),
            sorted_strict(r.vals()),
    {
        SortedVecDomain { values: sort_dedup(&values) }
    }

    /// Create a domain holding the inclusive integer range `start..=end`.
    pub fn from_range(start: u64, end: u64) -> (r: SortedVecDomain)
        ensures
            r.inv(),
            forall|x: u64| #[trigger] r.vals().contains(x) <==> start <= x <= end,
            sorted_strict(r.vals()),
    {
        SortedVecDomain { values: range_values(start, end) }
    }
}

impl SortedVecDomain {
    /// The values of a well-formed sorted-vector domain ascend strictly.
    pub proof fn lemma_sorted(&self)
        requires
            self.inv(),
        ensures
            sorted_strict(self.vals()),
    {
    }
}

impl Domain for SortedVecDomain {
    closed spec fn vals(&self) -> Seq<u64> {
        self.values@
    }

    closed spec fn inv(&self) -> bool {
        sorted_strict(self.values@)
    }

    proof fn lemma_inv_distinct(&self) {
        sorted_strict_implies_no_duplicates(self.values@);
    }

    fn contains(&self, value: u64) -> (r: bool) {
        sorted_contains(&self.values, value)
    }

    fn size(&self) -> (r: usize) {
        self.values.len()
    }

    fn is_empty(&self) -> (r: bool) {
        self.values.len() == 0
    }

    fn values(&self) -> (r: Vec<u64>) {
        clone_values(&self.values)
    }

    fn remove(&self, value: u64) -> (r: Self) {
        SortedVecDomain { values: filter_ne(&self.values, value) }
    }

    fn restrict_to(&self, values_to_keep: &Vec<u64>) -> (r: Self) {
        SortedVecDomain { values: filter_keep(&self.values, values_to_keep) }
    }

    fn duplicate(&self) -> (r: Self) {
        SortedVecDomain { values: clone_values(&self.values) }
    }
}

/// Creates a hash-set flavored domain from the given values.
pub fn hash_set_domain(values: Vec<u64>) -> (r: HashSetDomain)
    ensures
        r.inv(),
        forall|x: u64| r.vals().contains(x) <==> values@.contains(x),
{
    HashSetDomain::new(values)
}

/// Creates an ordered-set flavored domain from the given values.
pub fn btree_set_domain(values: Vec<u64>) -> (r: BTreeSetDomain)
    ensures
        r.inv(),
        forall|x: u64| r.vals().contains(x) <==> values@.contains(x),
{
    BTreeSetDomain::new(values)
}

/// Creates a vector-backed domain from the given values.
pub fn vec_domain(values: Vec<u64>) -> (r: VecDomain)
    ensures
        r.inv(),
        forall|x: u64| r.vals().contains(x) <==> values@.contains(x),
{
    VecDomain::new(values)
}

/// Creates a sorted-vector-backed domain from the given values.
pub fn sorted_vec_domain(values: Vec<u64>) -> (r: SortedVecDomain)
    ensures
        r.inv(),
        forall|x: u64| r.vals().contains(x) <==> values@.contains(x),
{
    SortedVecDomain::new(values)
}

} // verus!
