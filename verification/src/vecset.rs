use vstd::prelude::*;

use crate::rng::rand_index;

verus! {

/// A gene carries a historical marker that identifies it across genomes.
pub trait Gene: Sized + Copy {
    spec fn marker(&self) -> u64;

    fn get_innov(&self) -> (r: u64)
        ensures
            r == self.marker(),
    ;
}

/// Markers strictly ascend along the sequence; in particular they are unique.
pub open spec fn markers_sorted<T: Gene>(s: Seq<T>) -> bool {
    forall|i: int, j: int| 0 <= i < j < s.len() ==> s[i].marker() < s[j].marker()
}

/// Some element of the sequence carries the given marker.
pub open spec fn contains_marker<T: Gene>(s: Seq<T>, m: u64) -> bool {
    exists|i: int| 0 <= i < s.len() && s[i].marker() == m
}

/// The element carrying the given marker, if any; scans from the back, so on
/// a sorted sequence it is the unique such element.
pub open spec fn lookup_marker<T: Gene>(s: Seq<T>, m: u64) -> Option<T>
    decreases s.len(),
{
    if s.len() == 0 {
        Option::None
    } else if s.last().marker() == m {
        Option::Some(s.last())
    } else {
        lookup_marker(s.drop_last(), m)
    }
}

/// The sequence with the given gene inserted at its marker's sorted position;
/// meaningful when the marker is not already present.
pub open spec fn sorted_insert<T: Gene>(s: Seq<T>, g: T) -> Seq<T>
    decreases s.len(),
{
    if s.len() == 0 {
        seq![g]
    } else if s.last().marker() < g.marker() {
        s.push(g)
    } else {
        sorted_insert(s.drop_last(), g).push(s.last())
    }
}

/// The sequence with the element carrying the given marker removed.
pub open spec fn remove_marker<T: Gene>(s: Seq<T>, m: u64) -> Seq<T>
    decreases s.len(),
{
    if s.len() == 0 {
        s
    } else if s.last().marker() == m {
        s.drop_last()
    } else {
        remove_marker(s.drop_last(), m).push(s.last())
    }
}

/// `lookup_marker` finds exactly the markers that are present.
pub proof fn lemma_lookup_contains<T: Gene>(s: Seq<T>, m: u64)
    ensures
        lookup_marker(s, m) is Some <==> contains_marker(s, m),
        lookup_marker(s, m) is Some ==> lookup_marker(s, m)->Some_0.marker() == m,
    decreases s.len(),
{
    if s.len() > 0 {
        lemma_lookup_contains(s.drop_last(), m);
        if s.last().marker() == m {
        } else if contains_marker(s, m) {
            let i = choose|i: int| 0 <= i < s.len() && s[i].marker() == m;
            assert(s.drop_last()[i] == s[i]);
        }
    }
}

/// On a sorted sequence, any element with the marker is the looked-up one.
pub proof fn lemma_lookup_unique<T: Gene>(s: Seq<T>, i: int)
    requires
        markers_sorted(s),
        0 <= i < s.len(),
    ensures
        lookup_marker(s, s[i].marker()) == Option::Some(s[i]),
    decreases s.len(),
{
    if i == s.len() - 1 {
    } else {
        assert(s[i].marker() < s.last().marker());
        lemma_lookup_unique(s.drop_last(), i);
        assert(s.drop_last()[i] == s[i]);
    }
}

/// What `sorted_insert` contains: the new gene and everything that was there.
pub proof fn lemma_sorted_insert<T: Gene>(s: Seq<T>, g: T)
    requires
        markers_sorted(s),
        !contains_marker(s, g.marker()),
    ensures
        markers_sorted(sorted_insert(s, g)),
        sorted_insert(s, g).len() == s.len() + 1,
        forall|m: u64|
            contains_marker(sorted_insert(s, g), m) <==> (contains_marker(s, m) || m
                == g.marker()),
        forall|i: int|
            0 <= i < sorted_insert(s, g).len() ==> (sorted_insert(s, g)[i] == g || #[trigger] contains_marker(
                s,
                sorted_insert(s, g)[i].marker(),
            )),
        lookup_marker(sorted_insert(s, g), g.marker()) == Option::Some(g),
        forall|m: u64|
            m != g.marker() ==> #[trigger] lookup_marker(sorted_insert(s, g), m) == lookup_marker(
                s,
                m,
            ),
    decreases s.len(),
{
    let r = sorted_insert(s, g);
    if s.len() == 0 {
        assert forall|m: u64| contains_marker(r, m) implies (contains_marker(s, m) || m
            == g.marker()) by {
            let i = choose|i: int| 0 <= i < r.len() && r[i].marker() == m;
        }
        assert(contains_marker(r, g.marker())) by {
            assert(r[0] == g);
        }
        assert forall|m: u64| m != g.marker() implies #[trigger] lookup_marker(r, m)
            == lookup_marker(s, m) by {
            assert(r.last() == g);
            assert(r.drop_last() =~= s);
        }
    } else if s.last().marker() < g.marker() {
        assert forall|m: u64| contains_marker(r, m) implies (contains_marker(s, m) || m
            == g.marker()) by {
            let i = choose|i: int| 0 <= i < r.len() && r[i].marker() == m;
            if i < s.len() {
                assert(s[i].marker() == m);
            }
        }
        assert forall|m: u64| (contains_marker(s, m) || m == g.marker()) implies contains_marker(
            r,
            m,
        ) by {
            if m == g.marker() {
                assert(r[s.len() as int] == g);
            } else {
                let i = choose|i: int| 0 <= i < s.len() && s[i].marker() == m;
                assert(r[i].marker() == m);
            }
        }
        assert(r.drop_last() =~= s);
        assert forall|m: u64| m != g.marker() implies #[trigger] lookup_marker(r, m)
            == lookup_marker(s, m) by {
            assert(r.drop_last() =~= s);
        }
    } else {
        let s0 = s.drop_last();
        assert(!contains_marker(s0, g.marker())) by {
            if contains_marker(s0, g.marker()) {
                let i = choose|i: int| 0 <= i < s0.len() && s0[i].marker() == g.marker();
                assert(s[i].marker() == g.marker());
            }
        }
        lemma_sorted_insert(s0, g);
        let r0 = sorted_insert(s0, g);
        // every marker in r0 is at most max(last marker of s0, g's marker), both
        // below s.last().marker(), so pushing s.last() keeps the order
        assert(g.marker() != s.last().marker()) by {
            assert(s[s.len() - 1].marker() == s.last().marker());
        }
        assert forall|i: int| 0 <= i < r0.len() implies r0[i].marker() < s.last().marker() by {
            if r0[i] == g {
            } else {
                assert(contains_marker(s0, r0[i].marker()));
                let j = choose|j: int| 0 <= j < s0.len() && s0[j].marker() == r0[i].marker();
                assert(s[j].marker() < s.last().marker());
            }
        }
        assert(markers_sorted(r)) by {
            assert forall|i: int, j: int| 0 <= i < j < r.len() implies r[i].marker()
                < r[j].marker() by {
                if j < r.len() - 1 {
                    assert(r[i] == r0[i] && r[j] == r0[j]);
                } else {
                    assert(r[i] == r0[i]);
                }
            }
        }
        assert forall|m: u64| contains_marker(r, m) implies (contains_marker(s, m) || m
            == g.marker()) by {
            let i = choose|i: int| 0 <= i < r.len() && r[i].marker() == m;
            if i < r0.len() {
                assert(r0[i].marker() == m);
                if contains_marker(s0, m) {
                    let j = choose|j: int| 0 <= j < s0.len() && s0[j].marker() == m;
                    assert(s[j].marker() == m);
                }
            } else {
                assert(s[s.len() - 1].marker() == m);
            }
        }
        assert forall|m: u64| (contains_marker(s, m) || m == g.marker()) implies contains_marker(
            r,
            m,
        ) by {
            if m == g.marker() {
                assert(contains_marker(r0, m));
                let i = choose|i: int| 0 <= i < r0.len() && r0[i].marker() == m;
                assert(r[i].marker() == m);
            } else {
                let i = choose|i: int| 0 <= i < s.len() && s[i].marker() == m;
                if i < s.len() - 1 {
                    assert(s0[i].marker() == m);
                    assert(contains_marker(s0, m));
                    let j = choose|j: int| 0 <= j < r0.len() && r0[j].marker() == m;
                    assert(r[j].marker() == m);
                } else {
                    assert(r[r.len() - 1].marker() == m);
                }
            }
        }
        assert forall|i: int|
            0 <= i < r.len() implies (r[i] == g || #[trigger] contains_marker(
            s,
            r[i].marker(),
        )) by {
            if i < r0.len() {
                if r0[i] != g {
                    assert(contains_marker(s0, r0[i].marker()));
                    let j = choose|j: int| 0 <= j < s0.len() && s0[j].marker() == r0[i].marker();
                    assert(s[j].marker() == r0[i].marker());
                }
            } else {
                assert(r[i] == s.last());
                assert(s[s.len() - 1].marker() == r[i].marker());
            }
        }
        assert(r.drop_last() =~= r0);
        assert(r.last() == s.last());
        assert(lookup_marker(r, g.marker()) == Option::Some(g));
        assert forall|m: u64| m != g.marker() implies #[trigger] lookup_marker(r, m)
            == lookup_marker(s, m) by {
            assert(r.drop_last() =~= r0);
            assert(r.last() == s.last());
            assert(lookup_marker(r0, m) == lookup_marker(s0, m));
            if s.last().marker() != m {
                assert(lookup_marker(r, m) == lookup_marker(r0, m));
                assert(lookup_marker(s, m) == lookup_marker(s0, m));
            }
        }
    }
}

/// What `remove_marker` leaves behind.
pub proof fn lemma_remove_marker<T: Gene>(s: Seq<T>, m: u64)
    requires
        markers_sorted(s),
        contains_marker(s, m),
    ensures
        markers_sorted(remove_marker(s, m)),
        remove_marker(s, m).len() == s.len() - 1,
        forall|m2: u64|
            contains_marker(remove_marker(s, m), m2) <==> (contains_marker(s, m2) && m2 != m),
        forall|m2: u64|
            m2 != m ==> #[trigger] lookup_marker(remove_marker(s, m), m2) == lookup_marker(s, m2),
        forall|i: int|
            0 <= i < remove_marker(s, m).len() ==> #[trigger] contains_marker(
                s,
                remove_marker(s, m)[i].marker(),
            ) && remove_marker(s, m)[i] == lookup_marker(s, remove_marker(s, m)[i].marker())->Some_0,
    decreases s.len(),
{
    let r = remove_marker(s, m);
    if s.len() == 0 {
    } else if s.last().marker() == m {
        assert(r =~= s.drop_last());
        assert forall|m2: u64| (contains_marker(s, m2) && m2 != m) implies contains_marker(
            r,
            m2,
        ) by {
            let i = choose|i: int| 0 <= i < s.len() && s[i].marker() == m2;
            assert(i < s.len() - 1);
            assert(r[i].marker() == m2);
        }
        assert forall|m2: u64| contains_marker(r, m2) implies (contains_marker(s, m2) && m2
            != m) by {
            let i = choose|i: int| 0 <= i < r.len() && r[i].marker() == m2;
            assert(s[i].marker() == m2);
            assert(s[i].marker() < s.last().marker());
        }
        assert forall|m2: u64| m2 != m implies #[trigger] lookup_marker(r, m2) == lookup_marker(
            s,
            m2,
        ) by {
        }
        assert forall|i: int| 0 <= i < r.len() implies #[trigger] contains_marker(s, r[i].marker())
            && r[i] == lookup_marker(s, r[i].marker())->Some_0 by {
            assert(s[i] == r[i]);
            assert(s[i].marker() == r[i].marker());
            assert(contains_marker(s, r[i].marker()));
            lemma_lookup_unique(s, i);
        }
    } else {
        let s0 = s.drop_last();
        assert(contains_marker(s0, m)) by {
            let i = choose|i: int| 0 <= i < s.len() && s[i].marker() == m;
            assert(i < s.len() - 1);
            assert(s0[i].marker() == m);
        }
        lemma_remove_marker(s0, m);
        let r0 = remove_marker(s0, m);
        assert forall|i: int| 0 <= i < r0.len() implies r0[i].marker() < s.last().marker() by {
            assert(contains_marker(s0, r0[i].marker()));
            let j = choose|j: int| 0 <= j < s0.len() && s0[j].marker() == r0[i].marker();
            assert(s[j].marker() < s.last().marker());
        }
        assert(markers_sorted(r)) by {
            assert forall|i: int, j: int| 0 <= i < j < r.len() implies r[i].marker()
                < r[j].marker() by {
                if j < r.len() - 1 {
                    assert(r[i] == r0[i] && r[j] == r0[j]);
                } else {
                    assert(r[i] == r0[i]);
                }
            }
        }
        assert forall|m2: u64| contains_marker(r, m2) implies (contains_marker(s, m2) && m2
            != m) by {
            let i = choose|i: int| 0 <= i < r.len() && r[i].marker() == m2;
            if i < r0.len() {
                assert(contains_marker(s0, m2) && m2 != m);
                let j = choose|j: int| 0 <= j < s0.len() && s0[j].marker() == m2;
                assert(s[j].marker() == m2);
            } else {
                assert(s[s.len() - 1].marker() == m2);
                assert(m2 != m);
            }
        }
        assert(r == r0.push(s.last()));
        assert forall|m2: u64| (contains_marker(s, m2) && m2 != m) implies contains_marker(
            r,
            m2,
        ) by {
            let i = choose|i: int| 0 <= i < s.len() && s[i].marker() == m2;
            if i < s.len() - 1 {
                assert(s0[i] == s[i]);
                assert(contains_marker(s0, m2));
                assert(contains_marker(r0, m2));
                let j = choose|j: int| 0 <= j < r0.len() && r0[j].marker() == m2;
                assert(r[j] == r0[j]);
                assert(r[j].marker() == m2);
            } else {
                assert(r[r.len() - 1] == s.last());
                assert(s[i] == s.last());
                assert(r[r.len() - 1].marker() == m2);
            }
        }
        assert(r.drop_last() =~= r0);
        assert forall|m2: u64| m2 != m implies #[trigger] lookup_marker(r, m2) == lookup_marker(
            s,
            m2,
        ) by {
            assert(r.drop_last() =~= r0);
            assert(lookup_marker(r0, m2) == lookup_marker(s0, m2));
        }
        assert forall|i: int| 0 <= i < r.len() implies #[trigger] contains_marker(s, r[i].marker())
            && r[i] == lookup_marker(s, r[i].marker())->Some_0 by {
            if i < r0.len() {
                assert(r[i] == r0[i]);
                assert(contains_marker(s0, r0[i].marker()));
                let j = choose|j: int| 0 <= j < s0.len() && s0[j].marker() == r0[i].marker();
                assert(s0[j] == s[j]);
                assert(s[j].marker() == r0[i].marker());
                assert(contains_marker(s, r0[i].marker()));
                assert(r0[i] == lookup_marker(s0, r0[i].marker())->Some_0);
                assert(r0[i].marker() < s.last().marker());
                assert(lookup_marker(s, r0[i].marker()) == lookup_marker(s0, r0[i].marker()));
            } else {
                assert(r[i] == s.last());
                assert(s[s.len() - 1] == s.last());
                assert(s[s.len() - 1].marker() == r[i].marker());
                assert(contains_marker(s, r[i].marker()));
                lemma_lookup_unique(s, s.len() - 1);
            }
        }
    }
    assert forall|i: int|
        0 <= i < remove_marker(s, m).len() implies #[trigger] contains_marker(
        s,
        remove_marker(s, m)[i].marker(),
    ) && remove_marker(s, m)[i] == lookup_marker(
        s,
        remove_marker(s, m)[i].marker(),
    )->Some_0 by {
        assert(remove_marker(s, m) == r);
        assert(contains_marker(s, r[i].marker()));
        assert(r[i] == lookup_marker(s, r[i].marker())->Some_0);
    }
}

/// A duplicate-free, marker-sorted dynamic array of genes with binary search
/// by marker and ordered iteration; the collection genomes are made of.
pub struct VecSet<T: Gene> {
    pub vec: Vec<T>,
}

impl<T: Gene> View for VecSet<T> {
    type V = Seq<T>;

    open spec fn view(&self) -> Seq<T> {
        self.vec@
    }
}

impl<T: Gene> Clone for VecSet<T> {
    fn clone(&self) -> (r: Self)
        ensures
            r@ == self@,
    {
        let mut v: Vec<T> = Vec::new();
        let mut i: usize = 0;
        while i < self.vec.len()
            invariant
                i <= self.vec.len(),
                v@ =~= self.vec@.take(i as int),
            decreases self.vec.len() - i,
        {
            v.push(self.vec[i]);
            i += 1;
        }
        proof {
            assert(v@ =~= self.vec@);
        }
        VecSet { vec: v }
    }
}

impl<T: Gene> VecSet<T> {
    /// Strictly ascending markers: the structural invariant of the collection.
    pub open spec fn wf(&self) -> bool {
        markers_sorted(self@)
    }

    /// Creates an empty collection.
    pub fn new() -> (r: Self)
        ensures
            r@ == Seq::<T>::empty(),
            r.wf(),
    {
        VecSet { vec: Vec::new() }
    }

    pub fn len(&self) -> (r: usize)
        ensures
            r == self@.len(),
    {
        self.vec.len()
    }

    /// The element at a position of the ascending order.
    pub fn get(&self, index: usize) -> (r: &T)
        requires
            index < self@.len(),
        ensures
            *r == self@[index as int],
    {
        &self.vec[index]
    }

    /// Replaces the element at a position by one carrying the same marker,
    /// as the weight and toggle operators do.
    pub fn update_at(&mut self, index: usize, g: T)
        requires
            index < old(self)@.len(),
            g.marker() == old(self)@[index as int].marker(),
        ensures
            final(self)@ == old(self)@.update(index as int, g),
            old(self).wf() ==> final(self).wf(),
    {
        self.vec.set(index, g);
        proof {
            if old(self).wf() {
                assert(markers_sorted(self@)) by {
                    assert forall|i: int, j: int| 0 <= i < j < self@.len() implies self@[i].marker()
                        < self@[j].marker() by {
                        assert(old(self)@[i].marker() < old(self)@[j].marker());
                    }
                }
            }
        }
    }

    /// Binary search for the position of a marker known to be present.
    fn find_innov_index(&self, innov: u64) -> (r: usize)
        requires
            self.wf(),
            contains_marker(self@, innov),
        ensures
            r < self@.len(),
            self@[r as int].marker() == innov,
    {
        let ghost w = choose|i: int| 0 <= i < self@.len() && self@[i].marker() == innov;
        let mut lo: usize = 0;
        let mut hi: usize = self.vec.len();
        while hi - lo > 1
            invariant
                self.wf(),
                lo <= w < hi <= self@.len(),
                self@[w].marker() == innov,
            decreases hi - lo,
        {
            let mid = lo + (hi - lo) / 2;
            if self.vec[mid].get_innov() > innov {
                proof {
                    assert forall|k: int| mid <= k < self@.len() implies self@[k].marker()
                        > innov by {
                        if k > mid {
                            assert(self@[mid as int].marker() < self@[k].marker());
                        }
                    }
                }
                hi = mid;
            } else {
                proof {
                    assert forall|k: int| 0 <= k < mid implies self@[k].marker() < self@[mid as int].marker() by {
                    }
                }
                lo = mid;
            }
        }
        lo
    }

    /// The position of the element carrying the given marker.
    pub fn position_of_innov(&self, innov: u64) -> (r: usize)
        requires
            self.wf(),
            contains_marker(self@, innov),
        ensures
            r < self@.len(),
            self@[r as int].marker() == innov,
    {
        self.find_innov_index(innov)
    }

    /// A reference to the element carrying the given marker.
    pub fn get_by_innov(&self, innov: u64) -> (r: &T)
        requires
            self.wf(),
            contains_marker(self@, innov),
        ensures
            Option::Some(*r) == lookup_marker(self@, innov),
            r.marker() == innov,
    {
        let index = self.find_innov_index(innov);
        proof {
            lemma_lookup_unique(self@, index as int);
        }
        &self.vec[index]
    }

    /// Whether some element carries the given marker.
    pub fn contains_innov(&self, inno: u64) -> (r: bool)
        requires
            self.wf(),
        ensures
            r == contains_marker(self@, inno),
    {
        let mut lo: usize = 0;
        let mut hi: usize = self.vec.len();
        while lo < hi
            invariant
                self.wf(),
                lo <= hi <= self@.len(),
                forall|k: int| 0 <= k < lo ==> self@[k].marker() < inno,
                forall|k: int| hi <= k < self@.len() ==> self@[k].marker() > inno,
            decreases hi - lo,
        {
            let mid = lo + (hi - lo) / 2;
            let m = self.vec[mid].get_innov();
            if m == inno {
                proof {
                    assert(self@[mid as int].marker() == inno);
                }
                return true;
            } else if m > inno {
                proof {
                    assert forall|k: int| mid <= k < self@.len() implies self@[k].marker()
                        > inno by {
                        if k > mid {
                            assert(self@[mid as int].marker() < self@[k].marker());
                        }
                    }
                }
                hi = mid;
            } else {
                proof {
                    assert forall|k: int| 0 <= k <= mid implies self@[k].marker() < inno by {
                        if k < mid {
                            assert(self@[k].marker() < self@[mid as int].marker());
                        }
                    }
                }
                lo = mid + 1;
            }
        }
        proof {
            if contains_marker(self@, inno) {
                let i = choose|i: int| 0 <= i < self@.len() && self@[i].marker() == inno;
            }
        }
        false
    }

    /// Inserts the gene at its sorted position; a duplicate marker leaves the
    /// collection unchanged.
    pub fn insert_sorted(&mut self, gene: T)
        requires
            old(self).wf(),
        ensures
            final(self).wf(),
            contains_marker(old(self)@, gene.marker()) ==> final(self)@ == old(self)@,
            !contains_marker(old(self)@, gene.marker()) ==> final(self)@ == sorted_insert(
                old(self)@,
                gene,
            ),
    {
        if self.contains_innov(gene.get_innov()) {
            return ;
        }
        let ghost orig = self@;
        let mut index: usize = self.vec.len();
        while index > 0 && self.vec[index - 1].get_innov() > gene.get_innov()
            invariant
                self@ == orig,
                index <= self@.len(),
                forall|k: int| index <= k < self@.len() ==> self@[k].marker() > gene.marker(),
            decreases index,
        {
            index -= 1;
        }
        self.vec.insert(index, gene);
        proof {
            lemma_insert_at_position(orig, gene, index as int);
        }
    }

    /// `insert_sorted` under the name the callers of a growing collection
    /// use; reports whether the gene was new.
    pub fn push(&mut self, gene: T) -> (r: bool)
        requires
            old(self).wf(),
        ensures
            final(self).wf(),
            r == !contains_marker(old(self)@, gene.marker()),
            contains_marker(old(self)@, gene.marker()) ==> final(self)@ == old(self)@,
            !contains_marker(old(self)@, gene.marker()) ==> final(self)@ == sorted_insert(
                old(self)@,
                gene,
            ),
    {
        if self.contains_innov(gene.get_innov()) {
            return false;
        }
        self.insert_sorted(gene);
        true
    }

    /// Appends a gene whose marker exceeds every marker already present, as
    /// the builders that walk genes in marker order do.
    pub fn push_max(&mut self, gene: T)
        requires
            old(self).wf(),
            old(self)@.len() > 0 ==> old(self)@.last().marker() < gene.marker(),
        ensures
            final(self).wf(),
            final(self)@ == old(self)@.push(gene),
    {
        proof {
            if self@.len() > 0 {
                assert forall|i: int| 0 <= i < self@.len() implies self@[i].marker()
                    < gene.marker() by {
                    if i < self@.len() - 1 {
                        assert(self@[i].marker() < self@[self@.len() - 1].marker());
                    }
                }
            }
        }
        self.vec.push(gene);
        proof {
            let s = self@;
            assert forall|i: int, j: int| 0 <= i < j < s.len() implies s[i].marker()
                < s[j].marker() by {
                if j < s.len() - 1 {
                    assert(s[i] == old(self)@[i] && s[j] == old(self)@[j]);
                } else {
                    assert(s[i] == old(self)@[i]);
                }
            }
        }
    }

    /// Removes the element carrying the given marker, which must be present.
    pub fn remove(&mut self, innov: u64)
        requires
            old(self).wf(),
            contains_marker(old(self)@, innov),
        ensures
            final(self).wf(),
            final(self)@ == remove_marker(old(self)@, innov),
    {
        let ghost orig = self@;
        let index = self.find_innov_index(innov);
        self.vec.remove(index);
        proof {
            lemma_lookup_unique(orig, index as int);
            lemma_remove_at_position(orig, innov, index as int);
            lemma_remove_marker(orig, innov);
        }
    }

    /// The marker of a uniformly random element.
    pub fn rand_innov(&self) -> (r: u64)
        requires
            self@.len() > 0,
        ensures
            contains_marker(self@, r),
    {
        let index = rand_index(self.vec.len());
        let r = self.vec[index].get_innov();
        proof {
            assert(self@[index as int].marker() == r);
        }
        r
    }

    /// A uniformly random position, for operators that mutate one element.
    pub fn rand_position(&self) -> (r: usize)
        requires
            self@.len() > 0,
        ensures
            r < self@.len(),
    {
        rand_index(self.vec.len())
    }

    /// The largest marker, carried by the last element.
    pub fn max_innov(&self) -> (r: Option<u64>)
        requires
            self.wf(),
        ensures
            self@.len() == 0 ==> r is None,
            self@.len() > 0 ==> r == Option::Some(self@.last().marker()),
            r is Some ==> contains_marker(self@, r->Some_0),
            forall|i: int| 0 <= i < self@.len() ==> self@[i].marker() <= r->Some_0,
    {
        if self.vec.len() == 0 {
            None
        } else {
            let r = self.vec[self.vec.len() - 1].get_innov();
            proof {
                assert(self@[self@.len() - 1].marker() == r);
                assert forall|i: int| 0 <= i < self@.len() implies self@[i].marker() <= r by {
                    if i < self@.len() - 1 {
                        assert(self@[i].marker() < self@[self@.len() - 1].marker());
                    }
                }
            }
            Some(r)
        }
    }
}

/// Inserting at the frontier position found by the backward scan produces
/// exactly `sorted_insert`.
proof fn lemma_insert_at_position<T: Gene>(s: Seq<T>, g: T, index: int)
    requires
        markers_sorted(s),
        !contains_marker(s, g.marker()),
        0 <= index <= s.len(),
        forall|k: int| index <= k < s.len() ==> s[k].marker() > g.marker(),
        index > 0 ==> s[index - 1].marker() <= g.marker(),
    ensures
        s.insert(index, g) == sorted_insert(s, g),
    decreases s.len(),
{
    if s.len() == 0 {
        assert(s.insert(0, g) =~= seq![g]);
    } else if s.last().marker() < g.marker() {
        assert(index == s.len()) by {
            if index < s.len() {
                assert(s[s.len() - 1].marker() > g.marker());
            }
        }
        assert(s.insert(index, g) =~= s.push(g));
    } else {
        assert(index < s.len()) by {
            if index == s.len() {
                assert(s[index - 1].marker() <= g.marker());
            }
        }
        let s0 = s.drop_last();
        assert(!contains_marker(s0, g.marker())) by {
            if contains_marker(s0, g.marker()) {
                let i = choose|i: int| 0 <= i < s0.len() && s0[i].marker() == g.marker();
                assert(s[i].marker() == g.marker());
            }
        }
        lemma_insert_at_position(s0, g, index);
        assert(s.insert(index, g) =~= s0.insert(index, g).push(s.last()));
    }
}

/// Removing at the position where the marker sits produces `remove_marker`.
proof fn lemma_remove_at_position<T: Gene>(s: Seq<T>, m: u64, index: int)
    requires
        markers_sorted(s),
        0 <= index < s.len(),
        s[index].marker() == m,
    ensures
        s.remove(index) == remove_marker(s, m),
    decreases s.len(),
{
    if index == s.len() - 1 {
        assert(s.remove(index) =~= s.drop_last());
    } else {
        let s0 = s.drop_last();
        assert(s0[index].marker() == m);
        lemma_remove_at_position(s0, m, index);
        assert(s.last().marker() != m) by {
            assert(s[index].marker() < s[s.len() - 1].marker());
        }
        assert(s.remove(index) =~= s0.remove(index).push(s.last()));
    }
}

} // verus!
