//! Total orders and ordered sets.
//!
//! A key is ranked by a sequence of integers, and ranks are compared as words in
//! a dictionary. `SortedSet` keeps its items strictly increasing, so it holds
//! nothing twice and hands its items out in order.

use vstd::prelude::*;

use crate::text;

verus! {

/// `a` comes before `b`, and position `k` shows it: the two agree before `k`,
/// and there `a` has ended or holds the smaller number.
pub open spec fn before_at(a: Seq<int>, b: Seq<int>, k: int) -> bool {
    &&& 0 <= k <= a.len()
    &&& k < b.len()
    &&& forall|j: int| 0 <= j < k ==> a[j] == b[j]
    &&& k == a.len() || a[k] < b[k]
}

/// Dictionary order.
pub open spec fn before(a: Seq<int>, b: Seq<int>) -> bool {
    exists|k: int| before_at(a, b, k)
}

pub proof fn lemma_before_irreflexive(a: Seq<int>, b: Seq<int>)
    requires
        before(a, b),
    ensures
        a != b,
        !before(b, a),
{
    let k = choose|k: int| before_at(a, b, k);
    if before(b, a) {
        let m = choose|m: int| before_at(b, a, m);
        assert(before_at(b, a, m));
        if k < m {
            assert(b[k] == a[k]);
        } else if m < k {
            assert(a[m] == b[m]);
        }
    }
}

pub proof fn lemma_before_transitive(a: Seq<int>, b: Seq<int>, c: Seq<int>)
    requires
        before(a, b),
        before(b, c),
    ensures
        before(a, c),
{
    let k = choose|k: int| before_at(a, b, k);
    let m = choose|m: int| before_at(b, c, m);
    let n = if k <= m {
        k
    } else {
        m
    };
    assert(before_at(a, c, n));
}

pub proof fn lemma_before_total(a: Seq<int>, b: Seq<int>, k: int)
    requires
        0 <= k <= a.len(),
        k <= b.len(),
        forall|j: int| 0 <= j < k ==> a[j] == b[j],
        a != b,
    ensures
        before(a, b) || before(b, a),
    decreases a.len() - k,
{
    if k == a.len() {
        if k == b.len() {
            assert(a =~= b);
        } else {
            assert(before_at(a, b, k));
        }
    } else if k == b.len() {
        assert(before_at(b, a, k));
    } else if a[k] == b[k] {
        lemma_before_total(a, b, k + 1);
    } else if a[k] < b[k] {
        assert(before_at(a, b, k));
    } else {
        assert(before_at(b, a, k));
    }
}

/// A value that can be told apart from others and ordered by its rank.
pub trait Key: View + Sized {
    spec fn rank(v: Self::V) -> Seq<int>;

    proof fn rank_injective(a: Self::V, b: Self::V)
        requires
            Self::rank(a) == Self::rank(b),
        ensures
            a == b,
    ;

    fn less(&self, other: &Self) -> (r: bool)
        ensures
            r == before(Self::rank(self@), Self::rank(other@)),
    ;

    fn dup(&self) -> (r: Self)
        ensures
            r@ == self@,
    ;
}

/// The code points of a text.
pub open spec fn code_points(s: Seq<char>) -> Seq<int> {
    Seq::new(s.len(), |i: int| s[i] as int)
}

/// `s` comes before `t` in the order of code points, which is also the order of
/// their bytes in UTF-8.
pub open spec fn text_before(s: Seq<char>, t: Seq<char>) -> bool {
    before(code_points(s), code_points(t))
}

pub proof fn lemma_code_points_injective(a: Seq<char>, b: Seq<char>)
    requires
        code_points(a) == code_points(b),
    ensures
        a == b,
{
    assert(a.len() == code_points(a).len());
    assert(b.len() == code_points(b).len());
    assert forall|i: int| 0 <= i < a.len() implies a[i] == b[i] by {
        assert(code_points(a)[i] == a[i] as int);
        assert(code_points(b)[i] == b[i] as int);
    }
    assert(a =~= b);
}

pub proof fn lemma_code_points_natural(s: Seq<char>)
    ensures
        forall|i: int| 0 <= i < s.len() ==> #[trigger] code_points(s)[i] >= 0,
{
    assert forall|i: int| 0 <= i < s.len() implies #[trigger] code_points(s)[i] >= 0 by {
        let c: char = s[i];
        vstd::utf8::char_is_scalar(c);
        vstd::utf8::char_u32_cast(c, c as u32);
    }
}

/// Whether `a` comes before `b`.
pub fn text_less(a: &str, b: &str) -> (r: bool)
    ensures
        r == text_before(a@, b@),
{
    let x = text::chars_of(a);
    let y = text::chars_of(b);
    chars_less(&x, &y)
}

fn chars_less(x: &Vec<char>, y: &Vec<char>) -> (r: bool)
    ensures
        r == text_before(x@, y@),
{
    let ghost p = code_points(x@);
    let ghost q = code_points(y@);
    let mut k: usize = 0;
    while k < x.len() && k < y.len() && x[k] == y[k]
        invariant
            k <= x@.len(),
            k <= y@.len(),
            p == code_points(x@),
            q == code_points(y@),
            forall|j: int| 0 <= j < k ==> x@[j] == y@[j],
        decreases x@.len() - k,
    {
        k = k + 1;
    }
    assert forall|j: int| 0 <= j < k implies p[j] == q[j] by {
        assert(x@[j] == y@[j]);
    }
    if k == y.len() {
        proof {
            if before(p, q) {
                let m = choose|m: int| before_at(p, q, m);
                assert(m < k);
                assert(p[m] == q[m]);
            }
        }
        false
    } else if k == x.len() {
        assert(before_at(p, q, k as int));
        true
    } else if x[k] < y[k] {
        assert(before_at(p, q, k as int));
        true
    } else {
        proof {
            assert(before_at(q, p, k as int));
            lemma_before_irreflexive(q, p);
        }
        false
    }
}

impl Key for String {
    open spec fn rank(v: Seq<char>) -> Seq<int> {
        code_points(v)
    }

    proof fn rank_injective(a: Seq<char>, b: Seq<char>) {
        lemma_code_points_injective(a, b);
    }

    fn less(&self, other: &String) -> (r: bool) {
        text_less(self.as_str(), other.as_str())
    }

    fn dup(&self) -> (r: String) {
        self.clone()
    }
}

/// The views of the items of a list.
pub open spec fn views_of<K: View>(s: Seq<K>) -> Seq<K::V> {
    s.map_values(|k: K| k@)
}

/// The items strictly increase.
pub open spec fn increasing<K: Key>(s: Seq<K>) -> bool {
    forall|i: int, j: int|
        #![trigger s[i], s[j]]
        0 <= i < j < s.len() ==> before(K::rank(s[i]@), K::rank(s[j]@))
}

/// The values strictly increase.
pub open spec fn rising<K: Key>(s: Seq<K::V>) -> bool {
    forall|i: int, j: int|
        #![trigger s[i], s[j]]
        0 <= i < j < s.len() ==> before(K::rank(s[i]), K::rank(s[j]))
}

/// What strictly increases has no value twice.
pub proof fn lemma_increasing_distinct<K: Key>(s: Seq<K>)
    requires
        increasing(s),
    ensures
        views_of(s).no_duplicates(),
{
    let v = views_of(s);
    assert forall|i: int, j: int| 0 <= i < v.len() && 0 <= j < v.len() && i != j implies v[i]
        != v[j] by {
        if i < j {
            lemma_before_irreflexive(K::rank(s[i]@), K::rank(s[j]@));
        } else {
            lemma_before_irreflexive(K::rank(s[j]@), K::rank(s[i]@));
        }
    }
}

/// A set kept as a strictly increasing list.
pub struct SortedSet<K> {
    pub items: Vec<K>,
}

impl<K: Key> View for SortedSet<K> {
    type V = Set<K::V>;

    open spec fn view(&self) -> Set<K::V> {
        views_of(self.items@).to_set()
    }
}

impl<K: Key> SortedSet<K> {
    pub open spec fn wf(&self) -> bool {
        increasing(self.items@)
    }

    pub fn new() -> (r: SortedSet<K>)
        ensures
            r.wf(),
            r@ == Set::<K::V>::empty(),
            r.items@.len() == 0,
    {
        let r = SortedSet { items: Vec::new() };
        assert(r@ =~= Set::<K::V>::empty());
        r
    }

    /// Its size is the number of its items.
    pub proof fn lemma_len(&self)
        requires
            self.wf(),
        ensures
            self@.finite(),
            self@.len() == self.items@.len(),
    {
        let v = views_of(self.items@);
        lemma_increasing_distinct(self.items@);
        v.unique_seq_to_set();
        assert(v.to_set().finite()) by {
            v.lemma_cardinality_of_set();
        }
    }

    /// Membership by position.
    pub proof fn lemma_member(&self, v: K::V)
        ensures
            self@.contains(v) <==> exists|i: int|
                0 <= i < self.items@.len() && #[trigger] self.items@[i]@ == v,
    {
        let s = views_of(self.items@);
        if self@.contains(v) {
            let i = choose|i: int| 0 <= i < s.len() && s[i] == v;
            assert(self.items@[i]@ == v);
        }
        if exists|i: int| 0 <= i < self.items@.len() && #[trigger] self.items@[i]@ == v {
            let i = choose|i: int| 0 <= i < self.items@.len() && #[trigger] self.items@[i]@ == v;
            assert(s[i] == v);
        }
    }

    /// The place of `k`, or where it belongs.
    fn locate(&self, k: &K) -> (r: (bool, usize))
        requires
            self.wf(),
        ensures
            r.0 == self@.contains(k@),
            r.1 <= self.items@.len(),
            r.0 ==> r.1 < self.items@.len() && self.items@[r.1 as int]@ == k@,
            forall|j: int|
                0 <= j < r.1 ==> before(K::rank(#[trigger] self.items@[j]@), K::rank(k@)),
            forall|j: int|
                r.1 <= j < self.items@.len() && !(r.0 && j == r.1) ==> before(
                    K::rank(k@),
                    K::rank(#[trigger] self.items@[j]@),
                ),
    {
        let mut lo: usize = 0;
        let mut hi: usize = self.items.len();
        while lo < hi
            invariant
                self.wf(),
                lo <= hi <= self.items@.len(),
                forall|j: int|
                    0 <= j < lo ==> before(K::rank(#[trigger] self.items@[j]@), K::rank(k@)),
                forall|j: int|
                    hi <= j < self.items@.len() ==> !before(
                        K::rank(#[trigger] self.items@[j]@),
                        K::rank(k@),
                    ),
            decreases hi - lo,
        {
            let mid: usize = lo + (hi - lo) / 2;
            if self.items[mid].less(k) {
                proof {
                    assert forall|j: int| 0 <= j < mid + 1 implies before(
                        K::rank(#[trigger] self.items@[j]@),
                        K::rank(k@),
                    ) by {
                        if j < mid {
                            lemma_before_transitive(
                                K::rank(self.items@[j]@),
                                K::rank(self.items@[mid as int]@),
                                K::rank(k@),
                            );
                        }
                    }
                }
                lo = mid + 1;
            } else {
                proof {
                    assert forall|j: int| mid <= j < self.items@.len() implies !before(
                        K::rank(#[trigger] self.items@[j]@),
                        K::rank(k@),
                    ) by {
                        if before(K::rank(self.items@[j]@), K::rank(k@)) && j > mid {
                            lemma_before_transitive(
                                K::rank(self.items@[mid as int]@),
                                K::rank(self.items@[j]@),
                                K::rank(k@),
                            );
                        }
                    }
                }
                hi = mid;
            }
        }
        proof {
            assert forall|j: int|
                lo <= j < self.items@.len() && #[trigger] self.items@[j]@ != k@ implies before(
                K::rank(k@),
                K::rank(self.items@[j]@),
            ) by {
                if K::rank(self.items@[j]@) == K::rank(k@) {
                    K::rank_injective(self.items@[j]@, k@);
                }
                lemma_before_total(K::rank(self.items@[j]@), K::rank(k@), 0);
            }
            self.lemma_member(k@);
            assert forall|j: int| 0 <= j < lo implies #[trigger] self.items@[j]@ != k@ by {
                lemma_before_irreflexive(K::rank(self.items@[j]@), K::rank(k@));
            }
        }
        if lo < self.items.len() && !k.less(&self.items[lo]) {
            proof {
                assert(self.items@[lo as int]@ == k@);
                assert forall|j: int| lo < j < self.items@.len() implies #[trigger] self.items@[j]@
                    != k@ by {
                    lemma_before_irreflexive(
                        K::rank(self.items@[lo as int]@),
                        K::rank(self.items@[j]@),
                    );
                }
            }
            (true, lo)
        } else {
            proof {
                assert forall|j: int| lo <= j < self.items@.len() implies #[trigger] self.items@[j]@
                    != k@ by {
                    if self.items@[j]@ == k@ {
                        if j > lo {
                            lemma_before_irreflexive(
                                K::rank(self.items@[lo as int]@),
                                K::rank(self.items@[j]@),
                            );
                        } else {
                            lemma_before_irreflexive(K::rank(k@), K::rank(self.items@[j]@));
                        }
                    }
                }
            }
            (false, lo)
        }
    }

    pub fn contains(&self, k: &K) -> (r: bool)
        requires
            self.wf(),
        ensures
            r == self@.contains(k@),
    {
        self.locate(k).0
    }

    /// Adds `k`; says whether it was new.
    pub fn insert(&mut self, k: K) -> (r: bool)
        requires
            old(self).wf(),
        ensures
            final(self).wf(),
            final(self)@ == old(self)@.insert(k@),
            r == !old(self)@.contains(k@),
            final(self).items@.len() == old(self).items@.len() + (if r {
                1int
            } else {
                0
            }),
    {
        let (found, at): (bool, usize) = self.locate(&k);
        let ghost was = self@;
        let ghost list = self.items@;
        if found {
            assert(was.insert(k@) =~= was);
            return false;
        }
        let ghost v = k@;
        let ghost key = k;
        self.items.insert(at, k);
        proof {
            assert(self.items@ == list.insert(at as int, key));
            assert forall|i: int, j: int|
                #![trigger self.items@[i], self.items@[j]]
                0 <= i < j < self.items@.len() implies before(
                K::rank(self.items@[i]@),
                K::rank(self.items@[j]@),
            ) by {
                let a = if i < at {
                    list[i]
                } else if i == at {
                    key
                } else {
                    list[i - 1]
                };
                let b = if j < at {
                    list[j]
                } else if j == at {
                    key
                } else {
                    list[j - 1]
                };
                assert(self.items@[i] == a);
                assert(self.items@[j] == b);
            }
            assert forall|x: K::V| self@.contains(x) <==> #[trigger] was.insert(v).contains(x) by {
                self.lemma_member(x);
                if self@.contains(x) {
                    let i = choose|i: int|
                        0 <= i < self.items@.len() && #[trigger] self.items@[i]@ == x;
                    if i < at {
                        assert(list[i]@ == x);
                        assert(views_of(list)[i] == x);
                    } else if i > at {
                        assert(list[i - 1]@ == x);
                        assert(views_of(list)[i - 1] == x);
                    }
                }
                if was.contains(x) {
                    let i = choose|i: int| 0 <= i < views_of(list).len() && views_of(list)[i] == x;
                    assert(list[i]@ == x);
                    if i < at {
                        assert(self.items@[i]@ == x);
                    } else {
                        assert(self.items@[i + 1]@ == x);
                    }
                }
                if x == v {
                    assert(self.items@[at as int]@ == x);
                }
            }
            assert(self@ =~= was.insert(v));
        }
        true
    }

    /// Adds every item of a list.
    pub fn insert_all(&mut self, list: Vec<K>)
        requires
            old(self).wf(),
        ensures
            final(self).wf(),
            final(self)@ == old(self)@.union(views_of(list@).to_set()),
    {
        let ghost was = self@;
        let mut i: usize = 0;
        assert(was =~= was.union(views_of(list@.take(0)).to_set()));
        while i < list.len()
            invariant
                i <= list@.len(),
                self.wf(),
                self@ == was.union(views_of(list@.take(i as int)).to_set()),
            decreases list@.len() - i,
        {
            self.insert(list[i].dup());
            proof {
                lemma_take_set(list@, i as int);
                assert(self@ =~= was.union(views_of(list@.take(i + 1)).to_set()));
            }
            i = i + 1;
        }
        assert(list@.take(list@.len() as int) =~= list@);
    }
}

/// One more item of a list adds that item to the set of its items.
pub proof fn lemma_take_set<K: View>(s: Seq<K>, i: int)
    requires
        0 <= i < s.len(),
    ensures
        views_of(s.take(i + 1)).to_set() == views_of(s.take(i)).to_set().insert(s[i]@),
{
    let a = views_of(s.take(i + 1));
    let b = views_of(s.take(i));
    assert(a =~= b.push(s[i]@));
    assert forall|x: K::V| a.to_set().contains(x) <==> #[trigger] b.to_set().insert(
        s[i]@,
    ).contains(x) by {
        if a.contains(x) {
            let j = choose|j: int| 0 <= j < a.len() && a[j] == x;
            if j < i {
                assert(b[j] == x);
            }
        }
        if b.contains(x) {
            let j = choose|j: int| 0 <= j < b.len() && b[j] == x;
            assert(a[j] == x);
        }
        if x == s[i]@ {
            assert(a[i] == x);
        }
    }
    assert(a.to_set() =~= b.to_set().insert(s[i]@));
}

} // verus!
