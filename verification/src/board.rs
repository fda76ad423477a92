//! The bookkeeping of a whiteboard document that is about object ids: the
//! paint order, the selection and the next id to hand out.
use vstd::prelude::*;

verus! {

/// The kind of a whiteboard object.
#[derive(Debug, Clone, Copy, PartialEq, Eq, Structural)]
pub enum ObjectKind {
    Rect,
    Ellipse,
    Line,
    Arrow,
    Text,
    Image,
}

/// The predicate "is not `id`".
pub open spec fn not_id(id: u64) -> spec_fn(u64) -> bool {
    |x: u64| x != id
}

/// A list with every occurrence of `id` left out.
pub open spec fn without_id(s: Seq<u64>, id: u64) -> Seq<u64> {
    s.filter(not_id(id))
}

/// A list with `id` added at the end where it is not already there.
pub open spec fn with_id(s: Seq<u64>, id: u64) -> Seq<u64> {
    if s.contains(id) {
        s
    } else {
        s.push(id)
    }
}

/// The ids of a document's objects in paint order, bottom first; the
/// selected ids; and the next id to hand out.
pub struct BoardOrder {
    pub z_order: Vec<u64>,
    pub selection: Vec<u64>,
    pub next_id: u64,
}

/// `v` with every occurrence of `id` left out, in order.
fn retain_not(v: &Vec<u64>, id: u64) -> (r: Vec<u64>)
    ensures
        r@ == without_id(v@, id),
{
    let mut r: Vec<u64> = Vec::new();
    let mut i: usize = 0;
    while i < v.len()
        invariant
            i <= v@.len(),
            r@ == without_id(v@.subrange(0, i as int), id),
        decreases v@.len() - i,
    {
        proof {
            v@.subrange(0, i as int).lemma_filter_push(v@[i as int], not_id(id));
            assert(v@.subrange(0, i + 1) =~= v@.subrange(0, i as int).push(v@[i as int]));
        }
        if v[i] != id {
            r.push(v[i]);
        }
        i = i + 1;
    }
    proof {
        assert(v@.subrange(0, v@.len() as int) =~= v@);
    }
    r
}

impl BoardOrder {
    /// Nothing ordered, nothing selected, ids handed out from 1.
    pub fn new() -> (r: Self)
        ensures
            r.z_order@ == Seq::<u64>::empty(),
            r.selection@ == Seq::<u64>::empty(),
            r.next_id == 1,
    {
        BoardOrder { z_order: Vec::new(), selection: Vec::new(), next_id: 1 }
    }

    /// Hands out the next id; the counter stops at `u64::MAX`.
    pub fn alloc_id(&mut self) -> (id: u64)
        ensures
            id == old(self).next_id,
            final(self).next_id == if old(self).next_id == u64::MAX { u64::MAX } else { (old(self).next_id + 1) as u64 },
            final(self).z_order@ == old(self).z_order@,
            final(self).selection@ == old(self).selection@,
    {
        let id = self.next_id;
        self.next_id = self.next_id.saturating_add(1);
        id
    }

    /// An object `id` was stored: it goes on top of the paint order unless
    /// it is already in it.
    pub fn insert_id(&mut self, id: u64)
        ensures
            final(self).z_order@ == with_id(old(self).z_order@, id),
            final(self).selection@ == old(self).selection@,
            final(self).next_id == old(self).next_id,
    {
        let mut present = false;
        let mut i: usize = 0;
        while i < self.z_order.len()
            invariant
                i <= self.z_order@.len(),
                present == self.z_order@.subrange(0, i as int).contains(id),
            decreases self.z_order@.len() - i,
        {
            proof {
                let a = self.z_order@.subrange(0, i as int);
                let b = self.z_order@.subrange(0, i + 1);
                assert(b =~= a.push(self.z_order@[i as int]));
                assert(b.contains(id) == (a.contains(id) || self.z_order@[i as int] == id)) by {
                    if b.contains(id) && self.z_order@[i as int] != id {
                        let k = choose|k: int| 0 <= k < b.len() && b[k] == id;
                        assert(a[k] == id);
                    }
                    if a.contains(id) {
                        let k = choose|k: int| 0 <= k < a.len() && a[k] == id;
                        assert(b[k] == id);
                    }
                    if self.z_order@[i as int] == id {
                        assert(b[i as int] == id);
                    }
                }
            }
            if self.z_order[i] == id {
                present = true;
            }
            i = i + 1;
        }
        proof {
            assert(self.z_order@.subrange(0, i as int) =~= self.z_order@);
        }
        if !present {
            self.z_order.push(id);
        }
    }

    /// An object `id` was taken out: it leaves the paint order and the
    /// selection.
    pub fn remove_id(&mut self, id: u64)
        ensures
            final(self).z_order@ == without_id(old(self).z_order@, id),
            final(self).selection@ == without_id(old(self).selection@, id),
            final(self).next_id == old(self).next_id,
    {
        self.z_order = retain_not(&self.z_order, id);
        self.selection = retain_not(&self.selection, id);
    }

    /// Replaces the selection.
    pub fn set_selection(&mut self, selection: Vec<u64>)
        ensures
            final(self).selection@ == selection@,
            final(self).z_order@ == old(self).z_order@,
            final(self).next_id == old(self).next_id,
    {
        self.selection = selection;
    }

    /// Selects nothing.
    pub fn clear_selection(&mut self)
        ensures
            final(self).selection@ == Seq::<u64>::empty(),
            final(self).z_order@ == old(self).z_order@,
            final(self).next_id == old(self).next_id,
    {
        self.selection.clear();
    }
}

/// Leaving out an id a list holds no more of changes nothing.
proof fn lemma_without_absent(s: Seq<u64>, id: u64)
    requires
        !s.contains(id),
    ensures
        without_id(s, id) == s,
    decreases s.len(),
{
    if s.len() == 0 {
        reveal(Seq::filter);
    } else {
        let t = s.drop_last();
        assert(s =~= t.push(s.last()));
        assert(!t.contains(id)) by {
            if t.contains(id) {
                let k = choose|k: int| 0 <= k < t.len() && t[k] == id;
                assert(s[k] == id);
            }
        }
        lemma_without_absent(t, id);
        t.lemma_filter_push(s.last(), not_id(id));
        assert(s.last() != id) by {
            assert(s[s.len() - 1] == s.last());
        }
    }
}

/// The paint order never lists an id twice, and taking out an id that was
/// just stored gives back the order it was stored into.
pub proof fn lemma_order_no_duplicates(z: Seq<u64>, id: u64)
    requires
        z.no_duplicates(),
    ensures
        with_id(z, id).no_duplicates(),
        without_id(z, id).no_duplicates(),
        !without_id(z, id).contains(id),
        !z.contains(id) ==> without_id(with_id(z, id), id) == z,
{
    if !z.contains(id) {
        assert forall|i: int, j: int| 0 <= i < j < z.push(id).len() implies z.push(id)[i] != z.push(id)[j] by {
            if j == z.len() {
                assert(z.contains(z[i]));
            }
        }
        z.lemma_filter_push(id, not_id(id));
        lemma_without_absent(z, id);
    }
    lemma_filter_no_dup_u64(z, id);
}

/// A filter of a list without duplicates has none, and keeps no `id`.
proof fn lemma_filter_no_dup_u64(s: Seq<u64>, id: u64)
    requires
        s.no_duplicates(),
    ensures
        without_id(s, id).no_duplicates(),
        !without_id(s, id).contains(id),
    decreases s.len(),
{
    if s.len() == 0 {
        reveal(Seq::filter);
    } else {
        let t = s.drop_last();
        let x = s.last();
        assert(s =~= t.push(x));
        assert(t.no_duplicates()) by {
            assert forall|i: int, j: int| 0 <= i < j < t.len() implies t[i] != t[j] by {
                assert(s[i] == t[i] && s[j] == t[j]);
            }
        }
        lemma_filter_no_dup_u64(t, id);
        t.lemma_filter_push(x, not_id(id));
        let f = without_id(t, id);
        assert(!t.contains(x)) by {
            if t.contains(x) {
                let i = choose|i: int| 0 <= i < t.len() && t[i] == x;
                assert(s[i] == s[s.len() - 1]);
            }
        }
        if x != id {
            assert(!f.contains(x)) by {
                if f.contains(x) {
                    t.lemma_filter_contains_rev(not_id(id), x);
                }
            }
            assert forall|i: int, j: int| 0 <= i < j < f.push(x).len() implies f.push(x)[i] != f.push(x)[j] by {
                if j == f.len() {
                    assert(f.contains(f[i]));
                }
            }
            assert(!f.push(x).contains(id)) by {
                if f.push(x).contains(id) {
                    let k = choose|k: int| 0 <= k < f.push(x).len() && f.push(x)[k] == id;
                    if k < f.len() {
                        assert(f[k] == id);
                    }
                }
            }
        }
    }
}

} // verus!
