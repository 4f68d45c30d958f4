//! A spatial index of bounding boxes, answering intersection and containment
//! queries.
use vstd::prelude::*;
use crate::geometry::BoundingBox;

verus! {

/// An indexed box with its id.
pub type BoxIndexEl = (BoundingBox, u32);

/// The kind of a box query.
#[derive(Clone, Copy, Debug, PartialEq, Eq, Structural)]
pub enum QueryType {
    /// Boxes that share at least a boundary point with the query box.
    Intersects,
    /// Boxes inside the query box with a non-empty interior.
    Within,
}

/// Two boxes intersect when neither lies strictly beside the other on an
/// axis; boxes that only touch do intersect.
pub open spec fn spec_boxes_intersect(a: BoundingBox, b: BoundingBox) -> bool {
    a.min.x <= b.max.x && b.min.x <= a.max.x && a.min.y <= b.max.y && b.min.y <= a.max.y
}

/// `a` lies in `b` and has a non-empty interior on every axis.
pub open spec fn spec_box_within(a: BoundingBox, b: BoundingBox) -> bool {
    (b.min.x <= a.min.x && a.max.x <= b.max.x && a.min.x < a.max.x) && (b.min.y <= a.min.y
        && a.max.y <= b.max.y && a.min.y < a.max.y)
}

fn boxes_intersect(a: &BoundingBox, b: &BoundingBox) -> (r: bool)
    ensures
        r == spec_boxes_intersect(*a, *b),
        r == (a.min.x <= b.max.x && b.min.x <= a.max.x && a.min.y <= b.max.y && b.min.y <= a.max.y),
{
    a.min.x <= b.max.x && b.min.x <= a.max.x && a.min.y <= b.max.y && b.min.y <= a.max.y
}

fn box_within(a: &BoundingBox, b: &BoundingBox) -> (r: bool)
    ensures
        r == spec_box_within(*a, *b),
        r == (b.min.x <= a.min.x && a.max.x <= b.max.x && a.min.x < a.max.x && b.min.y <= a.min.y
            && a.max.y <= b.max.y && a.min.y < a.max.y),
{
    (b.min.x <= a.min.x && a.max.x <= b.max.x && a.min.x < a.max.x) && (b.min.y <= a.min.y
        && a.max.y <= b.max.y && a.min.y < a.max.y)
}

/// Whether an element answers a query.
pub open spec fn query_pred(e: BoxIndexEl, q: BoundingBox, qt: QueryType) -> bool {
    match qt {
        QueryType::Intersects => spec_boxes_intersect(e.0, q),
        QueryType::Within => spec_box_within(e.0, q),
    }
}

/// The answers to a query, in insertion order.
pub open spec fn query_spec(s: Seq<BoxIndexEl>, q: BoundingBox, qt: QueryType) -> Seq<BoxIndexEl>
    decreases s.len(),
{
    if s.len() == 0 {
        Seq::empty()
    } else {
        let rest = query_spec(s.drop_last(), q, qt);
        if query_pred(s.last(), q, qt) {
            rest.push(s.last())
        } else {
            rest
        }
    }
}

/// Two elements are the same for removal: equal corners and equal ids (the
/// `defined` flag is not compared).
pub open spec fn same_el(a: BoxIndexEl, b: BoxIndexEl) -> bool {
    a.0.min == b.0.min && a.0.max == b.0.max && a.1 == b.1
}

/// An element's box meets the query box: on each axis, x and y, the two
/// closed intervals share a point.
pub open spec fn intervals_meet(a: BoundingBox, q: BoundingBox) -> bool {
    &&& a.min.x <= q.max.x && q.min.x <= a.max.x
    &&& a.min.y <= q.max.y && q.min.y <= a.max.y
}

/// An element's box lies in the query box with some width and height.
pub open spec fn lies_within(a: BoundingBox, q: BoundingBox) -> bool {
    &&& q.min.x <= a.min.x && a.max.x <= q.max.x && a.min.x < a.max.x
    &&& q.min.y <= a.min.y && a.max.y <= q.max.y && a.min.y < a.max.y
}

/// What a query returns, on the coordinates: an intersection query returns
/// exactly the stored elements whose box meets the query box on both axes;
/// a containment query exactly those whose box lies in the query box with
/// some width and height. Each answer is a stored element.
pub proof fn lemma_query_geometry(s: Seq<BoxIndexEl>, q: BoundingBox)
    ensures
        forall|k: int|
            0 <= k < query_spec(s, q, QueryType::Intersects).len() ==> intervals_meet(
                (#[trigger] query_spec(s, q, QueryType::Intersects)[k]).0,
                q,
            ) && s.contains(query_spec(s, q, QueryType::Intersects)[k]),
        forall|k: int|
            0 <= k < s.len() && intervals_meet((#[trigger] s[k]).0, q) ==> query_spec(
                s,
                q,
                QueryType::Intersects,
            ).contains(s[k]),
        forall|k: int|
            0 <= k < query_spec(s, q, QueryType::Within).len() ==> lies_within(
                (#[trigger] query_spec(s, q, QueryType::Within)[k]).0,
                q,
            ) && s.contains(query_spec(s, q, QueryType::Within)[k]),
        forall|k: int|
            0 <= k < s.len() && lies_within((#[trigger] s[k]).0, q) ==> query_spec(
                s,
                q,
                QueryType::Within,
            ).contains(s[k]),
{
    lemma_query_exact(s, q, QueryType::Intersects);
    lemma_query_exact(s, q, QueryType::Within);
}

/// The answers to a query all satisfy it, and every element satisfying it
/// is among the answers.
pub proof fn lemma_query_exact(s: Seq<BoxIndexEl>, q: BoundingBox, qt: QueryType)
    ensures
        forall|k: int|
            0 <= k < query_spec(s, q, qt).len() ==> query_pred(
                #[trigger] query_spec(s, q, qt)[k],
                q,
                qt,
            ) && s.contains(query_spec(s, q, qt)[k]),
        forall|k: int|
            0 <= k < s.len() && query_pred(#[trigger] s[k], q, qt) ==> query_spec(
                s,
                q,
                qt,
            ).contains(s[k]),
        query_spec(s, q, qt).len() <= s.len(),
    decreases s.len(),
{
    if s.len() > 0 {
        let t = s.drop_last();
        lemma_query_exact(t, q, qt);
        let rest = query_spec(t, q, qt);
        assert forall|k: int|
            0 <= k < query_spec(s, q, qt).len() implies query_pred(
            #[trigger] query_spec(s, q, qt)[k],
            q,
            qt,
        ) && s.contains(query_spec(s, q, qt)[k]) by {
            if k < rest.len() {
                assert(query_spec(s, q, qt)[k] == rest[k]);
                let j = choose|j: int| 0 <= j < t.len() && t[j] == rest[k];
                assert(s[j] == t[j]);
            } else {
                assert(s[s.len() - 1] == s.last());
            }
        }
        assert forall|k: int|
            0 <= k < s.len() && query_pred(#[trigger] s[k], q, qt) implies query_spec(
            s,
            q,
            qt,
        ).contains(s[k]) by {
            if k < t.len() {
                assert(t[k] == s[k]);
                assert(rest.contains(t[k]));
                let j = choose|j: int| 0 <= j < rest.len() && rest[j] == t[k];
                assert(query_spec(s, q, qt)[j] == rest[j]);
            } else {
                assert(query_spec(s, q, qt)[rest.len() as int] == s.last());
            }
        }
    }
}

/// A collection of boxes with ids.
#[derive(Clone, Debug)]
pub struct BoxIndex {
    m_store: Vec<BoxIndexEl>,
}

impl View for BoxIndex {
    type V = Seq<BoxIndexEl>;

    closed spec fn view(&self) -> Seq<BoxIndexEl> {
        self.m_store@
    }
}

impl BoxIndex {
    /// An empty index.
    pub fn new() -> (r: BoxIndex)
        ensures
            r@ == Seq::<BoxIndexEl>::empty(),
    {
        BoxIndex { m_store: Vec::new() }
    }

    /// Add an element.
    pub fn insert(&mut self, el: BoxIndexEl)
        ensures
            final(self)@ == old(self)@.push(el),
    {
        self.m_store.push(el);
    }

    /// Add a box with its id.
    pub fn insert_box(&mut self, bb: BoundingBox, idx: u32)
        ensures
            final(self)@ == old(self)@.push((bb, idx)),
    {
        self.insert((bb, idx));
    }

    /// Remove the first element equal to `el` (same corners and id); true
    /// when one was found.
    pub fn remove(&mut self, el: &BoxIndexEl) -> (r: bool)
        ensures
            r == (exists|k: int| 0 <= k < old(self)@.len() && same_el(#[trigger] old(self)@[k], *el)),
            !r ==> final(self)@ == old(self)@,
            r ==> exists|k: int|
                0 <= k < old(self)@.len() && same_el(old(self)@[k], *el) && (forall|j: int|
                    0 <= j < k ==> !same_el(#[trigger] old(self)@[j], *el)) && final(self)@ == old(
                    self,
                )@.remove(k),
    {
        let n = self.m_store.len();
        let mut i: usize = 0;
        while i < n
            invariant
                n == self.m_store@.len(),
                self.m_store@ == old(self)@,
                i <= n,
                forall|j: int| 0 <= j < i ==> !same_el(#[trigger] self.m_store@[j], *el),
            decreases n - i,
        {
            let e = self.m_store[i];
            if e.0.min == el.0.min && e.0.max == el.0.max && e.1 == el.1 {
                self.m_store.remove(i);
                return true;
            }
            i += 1;
        }
        false
    }

    /// The elements answering a query, in insertion order.
    pub fn query(&self, qrbb: &BoundingBox, qt: QueryType) -> (r: Vec<BoxIndexEl>)
        ensures
            r@ == query_spec(self@, *qrbb, qt),
            qt == QueryType::Intersects ==> forall|k: int|
                0 <= k < r@.len() ==> intervals_meet((#[trigger] r@[k]).0, *qrbb),
            qt == QueryType::Within ==> forall|k: int|
                0 <= k < r@.len() ==> lies_within((#[trigger] r@[k]).0, *qrbb),
    {
        proof {
            lemma_query_geometry(self@, *qrbb);
        }
        let mut ret: Vec<BoxIndexEl> = Vec::new();
        let mut i: usize = 0;
        while i < self.m_store.len()
            invariant
                i <= self@.len(),
                ret@ == query_spec(self@.take(i as int), *qrbb, qt),
            decreases self@.len() - i,
        {
            let el = self.m_store[i];
            assert(self@.take(i as int + 1).drop_last() =~= self@.take(i as int));
            let hit = match qt {
                QueryType::Intersects => boxes_intersect(&el.0, qrbb),
                QueryType::Within => box_within(&el.0, qrbb),
            };
            if hit {
                ret.push(el);
            }
            i += 1;
        }
        assert(self@.take(self@.len() as int) =~= self@);
        ret
    }

    /// Number of elements.
    pub fn size(&self) -> (r: usize)
        ensures
            r == self@.len(),
    {
        self.m_store.len()
    }

    /// Whether the index has no elements.
    pub fn empty(&self) -> (r: bool)
        ensures
            r == (self@.len() == 0),
    {
        self.size() == 0
    }

    /// Call `f` on every element, in insertion order.
    pub fn foreach<F: Fn(&BoxIndexEl)>(&self, f: F)
        requires
            forall|k: int| 0 <= k < self@.len() ==> f.requires((&#[trigger] self@[k],)),
        ensures
            forall|k: int| 0 <= k < self@.len() ==> f.ensures((&#[trigger] self@[k],), ()),
    {
        let mut i: usize = 0;
        while i < self.m_store.len()
            invariant
                i <= self@.len(),
                forall|k: int| 0 <= k < self@.len() ==> f.requires((&#[trigger] self@[k],)),
                forall|k: int| 0 <= k < i ==> f.ensures((&#[trigger] self@[k],), ()),
            decreases self@.len() - i,
        {
            f(&self.m_store[i]);
            i += 1;
        }
    }
}

} // verus!
