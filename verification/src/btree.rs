//! An in-memory 2-3 search tree mapping an `i64` key to an append-only
//! list of byte-range locations.
//!
//! Every node holds 1 or 2 sorted keys (transiently 3 in the middle of a
//! split); an internal node has exactly one more child than it has keys.
//! Re-inserting an existing key appends to that key's location list
//! instead of creating a second entry.

use vstd::prelude::*;

use crate::errors::DbError;

verus! {

/// An opaque byte-range reference into the underlying storage.
#[derive(Clone, Copy, Debug, PartialEq, Eq, Structural)]
pub struct Location {
    pub byte_range_start: i64,
    pub byte_range_stop: i64,
}

/// One index entry: a key together with every location recorded for it,
/// in insertion order.
#[derive(Debug)]
pub struct ValueStruct {
    pub value: i64,
    pub location: Vec<Location>,
}

/// A 2-3 tree node; the tree is just its root node.
#[derive(Debug)]
pub struct BTree {
    pub values: Vec<ValueStruct>,
    pub children: Vec<Box<BTree>>,
    pub leaf: bool,
}

impl BTree {
    /// Whether some entry of `vs` carries the key `k`.
    pub open spec fn in_values(vs: Seq<ValueStruct>, k: int) -> bool {
        exists|i: int| 0 <= i < vs.len() && vs[i].value == k
    }

    /// The locations recorded for `k` among the entries `vs`, concatenated
    /// left to right.
    pub open spec fn locs_in_values(vs: Seq<ValueStruct>, k: int) -> Seq<Location>
        decreases vs.len(),
    {
        if vs.len() == 0 {
            Seq::empty()
        } else {
            (if vs[0].value == k {
                vs[0].location@
            } else {
                Seq::empty()
            }) + Self::locs_in_values(vs.subrange(1, vs.len() as int), k)
        }
    }

    /// Whether `k` appears somewhere in one of the subtrees `cs`.
    pub open spec fn key_in_children(cs: Seq<Box<BTree>>, k: int) -> bool
        decreases cs,
    {
        cs.len() > 0 && (cs[0].has_key(k) || Self::key_in_children(
            cs.subrange(1, cs.len() as int),
            k,
        ))
    }

    /// Whether `k` appears somewhere in this subtree.
    pub open spec fn has_key(self, k: int) -> bool
        decreases self,
    {
        Self::in_values(self.values@, k) || Self::key_in_children(self.children@, k)
    }

    /// The locations recorded for `k` in the subtrees `cs`, concatenated
    /// left to right.
    pub open spec fn locs_in_children(cs: Seq<Box<BTree>>, k: int) -> Seq<Location>
        decreases cs,
    {
        if cs.len() == 0 {
            Seq::empty()
        } else {
            cs[0].locs(k) + Self::locs_in_children(cs.subrange(1, cs.len() as int), k)
        }
    }

    /// The locations recorded for `k` in this subtree: the node's own
    /// contribution followed by its children's, left to right.  In a
    /// well-formed tree at most one node carries `k`, so the order of
    /// concatenation does not matter.
    pub open spec fn locs(self, k: int) -> Seq<Location>
        decreases self,
    {
        Self::locs_in_values(self.values@, k) + Self::locs_in_children(self.children@, k)
    }

    /// Keys strictly increase along the entries of a node.
    pub open spec fn values_sorted(vs: Seq<ValueStruct>) -> bool {
        forall|i: int, j: int| 0 <= i < j < vs.len() ==> vs[i].value < vs[j].value
    }

    /// Every key in this subtree is strictly below `b`.
    pub open spec fn all_keys_lt(self, b: int) -> bool {
        forall|k: int| #[trigger] self.has_key(k) ==> k < b
    }

    /// Every key in this subtree is strictly above `b`.
    pub open spec fn all_keys_gt(self, b: int) -> bool {
        forall|k: int| #[trigger] self.has_key(k) ==> k > b
    }

    /// The node layout laws shared by settled nodes and by the transient
    /// 3-key state in the middle of a split: at least one sorted key; a
    /// leaf has no children; an internal node has one more child than it
    /// has keys, each child well formed, and each child's keys strictly
    /// between the keys that bracket it.
    pub open spec fn wf_wide(self) -> bool
        decreases self, 0int,
    {
        &&& 1 <= self.values@.len()
        &&& Self::values_sorted(self.values@)
        &&& (self.leaf ==> self.children@.len() == 0)
        &&& (!self.leaf ==> {
            &&& self.children@.len() == self.values@.len() + 1
            &&& (forall|i: int|
                0 <= i < self.children@.len() ==> (#[trigger] self.children@[i]).wf())
            &&& (forall|i: int|
                0 <= i < self.values@.len() ==> (#[trigger] self.children@[i]).all_keys_lt(
                    self.values@[i].value as int,
                ))
            &&& (forall|i: int|
                1 <= i < self.children@.len() ==> (#[trigger] self.children@[i]).all_keys_gt(
                    self.values@[i - 1].value as int,
                ))
        })
    }

    /// Well-formedness of a settled non-empty subtree: the shared layout
    /// laws with at most 2 keys per node.
    pub open spec fn wf(self) -> bool
        decreases self, 1int,
    {
        self.values@.len() <= 2 && self.wf_wide()
    }

    /// The content contributed, for key `k`, by the triple that a split
    /// hands to its caller: left node, promoted entry, right sibling.
    pub open spec fn combined_locs(l: BTree, p: ValueStruct, r: BTree, k: int) -> Seq<Location> {
        l.locs(k) + (if p.value == k {
            p.location@
        } else {
            Seq::<Location>::empty()
        }) + r.locs(k)
    }

    /// Whether the triple that a split hands to its caller carries `k`.
    pub open spec fn combined_has(l: BTree, p: ValueStruct, r: BTree, k: int) -> bool {
        l.has_key(k) || p.value == k || r.has_key(k)
    }

    /// Well-formedness of the root: an empty tree is a bare leaf; any
    /// other tree is a well-formed node.
    pub open spec fn wf_root(self) -> bool {
        if self.values@.len() == 0 {
            self.leaf && self.children@.len() == 0
        } else {
            self.wf()
        }
    }

    /// Concatenating entry lists concatenates their location contributions.
    proof fn lemma_locs_values_app(a: Seq<ValueStruct>, b: Seq<ValueStruct>, k: int)
        ensures
            Self::locs_in_values(a + b, k) == Self::locs_in_values(a, k) + Self::locs_in_values(
                b,
                k,
            ),
        decreases a.len(),
    {
        if a.len() == 0 {
            assert(a + b =~= b);
            assert(Self::locs_in_values(a, k) =~= Seq::<Location>::empty());
            assert(Self::locs_in_values(a + b, k) =~= Self::locs_in_values(a, k)
                + Self::locs_in_values(b, k));
        } else {
            let t = a.subrange(1, a.len() as int);
            Self::lemma_locs_values_app(t, b, k);
            assert((a + b).subrange(1, (a + b).len() as int) =~= t + b);
            assert((a + b)[0] == a[0]);
            assert(Self::locs_in_values(a + b, k) =~= Self::locs_in_values(a, k)
                + Self::locs_in_values(b, k));
        }
    }

    /// Concatenating child lists concatenates their location contributions
    /// and unions their key sets.
    proof fn lemma_locs_children_app(a: Seq<Box<BTree>>, b: Seq<Box<BTree>>, k: int)
        ensures
            Self::locs_in_children(a + b, k) == Self::locs_in_children(a, k)
                + Self::locs_in_children(b, k),
            Self::key_in_children(a + b, k) <==> (Self::key_in_children(a, k)
                || Self::key_in_children(b, k)),
        decreases a.len(),
    {
        if a.len() == 0 {
            assert(a + b =~= b);
            assert(Self::locs_in_children(a, k) =~= Seq::<Location>::empty());
            assert(Self::locs_in_children(a + b, k) =~= Self::locs_in_children(a, k)
                + Self::locs_in_children(b, k));
        } else {
            let t = a.subrange(1, a.len() as int);
            Self::lemma_locs_children_app(t, b, k);
            assert((a + b).subrange(1, (a + b).len() as int) =~= t + b);
            assert((a + b)[0] == a[0]);
            assert(Self::locs_in_children(a + b, k) =~= Self::locs_in_children(a, k)
                + Self::locs_in_children(b, k));
        }
    }

    /// An entry list without `k` contributes no locations for `k`.
    proof fn lemma_locs_values_absent(vs: Seq<ValueStruct>, k: int)
        requires
            !Self::in_values(vs, k),
        ensures
            Self::locs_in_values(vs, k) == Seq::<Location>::empty(),
        decreases vs.len(),
    {
        if vs.len() == 0 {
            assert(Self::locs_in_values(vs, k) =~= Seq::<Location>::empty());
        } else {
            let t = vs.subrange(1, vs.len() as int);
            assert(!Self::in_values(t, k)) by {
                assert(forall|i: int| 0 <= i < t.len() ==> t[i] == vs[i + 1]);
            }
            Self::lemma_locs_values_absent(t, k);
            assert(vs[0].value != k);
            assert(Self::locs_in_values(vs, k) =~= Seq::<Location>::empty());
        }
    }

    /// `k` lies in a child list exactly when it lies in one of its subtrees.
    proof fn lemma_key_in_children_iff(cs: Seq<Box<BTree>>, k: int)
        ensures
            Self::key_in_children(cs, k) <==> exists|i: int|
                0 <= i < cs.len() && (#[trigger] cs[i]).has_key(k),
        decreases cs.len(),
    {
        if cs.len() > 0 {
            let t = cs.subrange(1, cs.len() as int);
            Self::lemma_key_in_children_iff(t, k);
            assert(forall|i: int| 0 <= i < t.len() ==> t[i] == cs[i + 1]);
            if Self::key_in_children(cs, k) {
                if cs[0].has_key(k) {
                } else {
                    let i = choose|i: int| 0 <= i < t.len() && (#[trigger] t[i]).has_key(k);
                    assert(cs[i + 1].has_key(k));
                }
            }
            if exists|i: int| 0 <= i < cs.len() && (#[trigger] cs[i]).has_key(k) {
                let i = choose|i: int| 0 <= i < cs.len() && (#[trigger] cs[i]).has_key(k);
                if i > 0 {
                    assert(t[i - 1].has_key(k));
                }
            }
        }
    }

    /// A child list in which no subtree holds `k` contributes no locations
    /// for `k`.
    proof fn lemma_locs_children_absent(cs: Seq<Box<BTree>>, k: int)
        requires
            !Self::key_in_children(cs, k),
        ensures
            Self::locs_in_children(cs, k) == Seq::<Location>::empty(),
        decreases cs,
    {
        if cs.len() == 0 {
            assert(Self::locs_in_children(cs, k) =~= Seq::<Location>::empty());
        } else {
            let t = cs.subrange(1, cs.len() as int);
            cs[0].lemma_locs_absent(k);
            Self::lemma_locs_children_absent(t, k);
            assert(Self::locs_in_children(cs, k) =~= Seq::<Location>::empty());
        }
    }

    /// A subtree without `k` holds no locations for `k`.
    proof fn lemma_locs_absent(self, k: int)
        requires
            !self.has_key(k),
        ensures
            self.locs(k) == Seq::<Location>::empty(),
        decreases self,
    {
        Self::lemma_locs_values_absent(self.values@, k);
        Self::lemma_locs_children_absent(self.children@, k);
        assert(self.locs(k) =~= Seq::<Location>::empty());
    }

    /// Splits an entry list's contribution for `k` around position `i`.
    proof fn lemma_locs_values_elem_split(vs: Seq<ValueStruct>, i: int, k: int)
        requires
            0 <= i < vs.len(),
        ensures
            Self::locs_in_values(vs, k) == Self::locs_in_values(vs.subrange(0, i), k) + (if vs[
                i
            ].value == k {
                vs[i].location@
            } else {
                Seq::<Location>::empty()
            }) + Self::locs_in_values(vs.subrange(i + 1, vs.len() as int), k),
    {
        let a = vs.subrange(0, i);
        let m = vs.subrange(i, i + 1);
        let b = vs.subrange(i + 1, vs.len() as int);
        assert(vs =~= a + m + b);
        Self::lemma_locs_values_app(a + m, b, k);
        Self::lemma_locs_values_app(a, m, k);
        assert(m.subrange(1, m.len() as int) =~= Seq::<ValueStruct>::empty());
        assert(Self::locs_in_values(m.subrange(1, m.len() as int), k) =~= Seq::<
            Location,
        >::empty());
        assert(Self::locs_in_values(m, k) =~= (if vs[i].value == k {
            vs[i].location@
        } else {
            Seq::<Location>::empty()
        }));
    }

    /// Splits a child list's contribution for `k` around position `i`.
    proof fn lemma_locs_children_elem_split(cs: Seq<Box<BTree>>, i: int, k: int)
        requires
            0 <= i < cs.len(),
        ensures
            Self::locs_in_children(cs, k) == Self::locs_in_children(cs.subrange(0, i), k) + cs[
                i
            ].locs(k) + Self::locs_in_children(cs.subrange(i + 1, cs.len() as int), k),
    {
        let a = cs.subrange(0, i);
        let m = cs.subrange(i, i + 1);
        let b = cs.subrange(i + 1, cs.len() as int);
        assert(cs =~= a + m + b);
        Self::lemma_locs_children_app(a + m, b, k);
        Self::lemma_locs_children_app(a, m, k);
        assert(m.subrange(1, m.len() as int) =~= Seq::<Box<BTree>>::empty());
        assert(Self::locs_in_children(m.subrange(1, m.len() as int), k) =~= Seq::<
            Location,
        >::empty());
        assert(Self::locs_in_children(m, k) =~= cs[i].locs(k));
    }

    /// A single entry contributes exactly its own location list.
    proof fn lemma_locs_values_single(v: ValueStruct, k: int)
        ensures
            Self::locs_in_values(seq![v], k) == (if v.value == k {
                v.location@
            } else {
                Seq::<Location>::empty()
            }),
    {
        let s = seq![v];
        assert(s.subrange(1, 1) =~= Seq::<ValueStruct>::empty());
        assert(Self::locs_in_values(s.subrange(1, 1), k) =~= Seq::<Location>::empty());
        assert(Self::locs_in_values(s, k) =~= (if v.value == k {
            v.location@
        } else {
            Seq::<Location>::empty()
        }));
    }

    /// A single subtree contributes exactly its own locations and keys.
    proof fn lemma_locs_children_single(c: Box<BTree>, k: int)
        ensures
            Self::locs_in_children(seq![c], k) == c.locs(k),
            Self::key_in_children(seq![c], k) <==> c.has_key(k),
    {
        let s = seq![c];
        assert(s.subrange(1, 1) =~= Seq::<Box<BTree>>::empty());
        assert(Self::locs_in_children(s.subrange(1, 1), k) =~= Seq::<Location>::empty());
        assert(Self::locs_in_children(s, k) =~= c.locs(k));
        assert(!Self::key_in_children(s.subrange(1, 1), k));
    }

    /// A 1-key internal node holds exactly the content of the split
    /// triple it was assembled from.
    proof fn lemma_compose(n: BTree, l: Box<BTree>, p: ValueStruct, r: Box<BTree>, k: int)
        requires
            n.values@ == seq![p],
            n.children@ == seq![l, r],
            l.all_keys_lt(p.value as int),
            r.all_keys_gt(p.value as int),
        ensures
            n.locs(k) == Self::combined_locs(*l, p, *r, k),
            n.has_key(k) <==> Self::combined_has(*l, p, *r, k),
    {
        Self::lemma_locs_values_single(p, k);
        assert(n.children@ =~= seq![l] + seq![r]);
        Self::lemma_locs_children_app(seq![l], seq![r], k);
        Self::lemma_locs_children_single(l, k);
        Self::lemma_locs_children_single(r, k);
        if p.value == k {
            l.lemma_locs_absent(k);
            r.lemma_locs_absent(k);
            assert(n.locs(k) =~= Self::combined_locs(*l, p, *r, k));
        } else {
            assert(n.locs(k) =~= Self::combined_locs(*l, p, *r, k));
        }
    }

    /// Splitting a 3-key node into a 1-key left node, a promoted middle
    /// entry and a 1-key right sibling preserves its content exactly and
    /// yields well-formed parts on either side of the promoted key.
    proof fn lemma_split3(w: BTree, l: BTree, p: ValueStruct, r: BTree)
        requires
            w.wf_wide(),
            w.values@.len() == 3,
            p == w.values@[1],
            l.values@ == w.values@.subrange(0, 1),
            r.values@ == w.values@.subrange(2, 3),
            l.leaf == w.leaf,
            r.leaf == w.leaf,
            w.leaf ==> l.children@.len() == 0 && r.children@.len() == 0,
            !w.leaf ==> l.children@ == w.children@.subrange(0, 2) && r.children@
                == w.children@.subrange(2, 4),
        ensures
            l.wf(),
            r.wf(),
            l.values@.len() == 1,
            r.values@.len() == 1,
            l.all_keys_lt(p.value as int),
            r.all_keys_gt(p.value as int),
            forall|k: int| Self::combined_locs(l, p, r, k) == w.locs(k),
            forall|k: int| Self::combined_has(l, p, r, k) <==> w.has_key(k),
    {
        let v0 = w.values@[0];
        let v1 = w.values@[1];
        let v2 = w.values@[2];
        assert(l.values@ =~= seq![v0]);
        assert(r.values@ =~= seq![v2]);
        assert(v0.value < v1.value && v1.value < v2.value);
        if !w.leaf {
            assert(w.children@.len() == 4);
            assert(l.children@ =~= seq![w.children@[0], w.children@[1]]);
            assert(r.children@ =~= seq![w.children@[2], w.children@[3]]);
        }
        // well-formedness and key bounds of the two sides
        assert forall|k: int| #[trigger] l.has_key(k) implies k < p.value as int by {
            Self::lemma_key_in_children_iff(l.children@, k);
            if Self::in_values(l.values@, k) {
            } else {
                let i = choose|i: int| 0 <= i < l.children@.len() && (#[trigger] l.children@[i]).has_key(k);
                assert(l.children@[i] == w.children@[i]);
                if i == 0 {
                    assert(w.children@[0].all_keys_lt(v0.value as int));
                } else {
                    assert(w.children@[1].all_keys_lt(v1.value as int));
                }
            }
        }
        assert forall|k: int| #[trigger] r.has_key(k) implies k > p.value as int by {
            Self::lemma_key_in_children_iff(r.children@, k);
            if Self::in_values(r.values@, k) {
            } else {
                let i = choose|i: int| 0 <= i < r.children@.len() && (#[trigger] r.children@[i]).has_key(k);
                assert(r.children@[i] == w.children@[i + 2]);
                if i == 0 {
                    assert(w.children@[2].all_keys_gt(v1.value as int));
                } else {
                    assert(w.children@[3].all_keys_gt(v2.value as int));
                }
            }
        }
        assert(l.wf()) by {
            if !w.leaf {
                assert(forall|i: int|
                    0 <= i < l.children@.len() ==> (#[trigger] l.children@[i]).wf());
                assert(l.children@[0].all_keys_lt(l.values@[0].value as int));
                assert(l.children@[1].all_keys_gt(l.values@[0].value as int));
            }
        }
        assert(r.wf()) by {
            if !w.leaf {
                assert(r.children@[0] == w.children@[2]);
                assert(r.children@[1] == w.children@[3]);
                assert(r.children@[0].all_keys_lt(r.values@[0].value as int));
                assert(r.children@[1].all_keys_gt(r.values@[0].value as int));
            }
        }
        // content preservation, key by key
        assert forall|k: int| Self::combined_locs(l, p, r, k) == w.locs(k) && (Self::combined_has(
            l,
            p,
            r,
            k,
        ) <==> w.has_key(k)) by {
            Self::lemma_locs_values_single(v0, k);
            Self::lemma_locs_values_single(v1, k);
            Self::lemma_locs_values_single(v2, k);
            assert(w.values@ =~= seq![v0] + seq![v1] + seq![v2]);
            Self::lemma_locs_values_app(seq![v0] + seq![v1], seq![v2], k);
            Self::lemma_locs_values_app(seq![v0], seq![v1], k);
            Self::lemma_key_in_children_iff(w.children@, k);
            Self::lemma_key_in_children_iff(l.children@, k);
            Self::lemma_key_in_children_iff(r.children@, k);
            if w.leaf {
                assert(Self::locs_in_children(w.children@, k) =~= Seq::<Location>::empty());
                assert(Self::locs_in_children(l.children@, k) =~= Seq::<Location>::empty());
                assert(Self::locs_in_children(r.children@, k) =~= Seq::<Location>::empty());
                assert(Self::combined_locs(l, p, r, k) =~= w.locs(k));
            } else {
                let c0 = w.children@[0];
                let c1 = w.children@[1];
                let c2 = w.children@[2];
                let c3 = w.children@[3];
                assert(w.children@ =~= seq![c0] + seq![c1] + seq![c2] + seq![c3]);
                assert(l.children@ =~= seq![c0] + seq![c1]);
                assert(r.children@ =~= seq![c2] + seq![c3]);
                Self::lemma_locs_children_app(seq![c0] + seq![c1] + seq![c2], seq![c3], k);
                Self::lemma_locs_children_app(seq![c0] + seq![c1], seq![c2], k);
                Self::lemma_locs_children_app(seq![c0], seq![c1], k);
                Self::lemma_locs_children_app(seq![c2], seq![c3], k);
                Self::lemma_locs_children_single(c0, k);
                Self::lemma_locs_children_single(c1, k);
                Self::lemma_locs_children_single(c2, k);
                Self::lemma_locs_children_single(c3, k);
                // at most one of the seven contributions is non-empty
                if v0.value == k || v1.value == k || v2.value == k {
                    assert(c0.all_keys_lt(v0.value as int) && c1.all_keys_gt(v0.value as int)
                        && c1.all_keys_lt(v1.value as int) && c2.all_keys_gt(v1.value as int)
                        && c2.all_keys_lt(v2.value as int) && c3.all_keys_gt(v2.value as int));
                    c0.lemma_locs_absent(k);
                    c1.lemma_locs_absent(k);
                    c2.lemma_locs_absent(k);
                    c3.lemma_locs_absent(k);
                    assert(Self::combined_locs(l, p, r, k) =~= w.locs(k));
                } else {
                    assert(Self::combined_locs(l, p, r, k) =~= w.locs(k));
                }
            }
        }
    }

    /// In a node obeying the layout laws, a key held by entry `i` of the
    /// node itself appears in no child, and the node's locations for it
    /// are exactly that entry's list.
    proof fn lemma_own_key(t: BTree, i: int, k: int)
        requires
            t.wf_wide(),
            0 <= i < t.values@.len(),
            t.values@[i].value == k,
        ensures
            t.locs(k) == t.values@[i].location@,
            !Self::key_in_children(t.children@, k),
            t.has_key(k),
    {
        Self::lemma_locs_values_elem_split(t.values@, i, k);
        let a = t.values@.subrange(0, i);
        let b = t.values@.subrange(i + 1, t.values@.len() as int);
        assert(!Self::in_values(a, k) && !Self::in_values(b, k)) by {
            assert(Self::values_sorted(t.values@));
            assert(forall|j: int| 0 <= j < a.len() ==> a[j] == t.values@[j]);
            assert(forall|j: int| 0 <= j < b.len() ==> b[j] == t.values@[j + i + 1]);
        }
        Self::lemma_locs_values_absent(a, k);
        Self::lemma_locs_values_absent(b, k);
        if t.leaf {
            assert(Self::locs_in_children(t.children@, k) =~= Seq::<Location>::empty());
            assert(!Self::key_in_children(t.children@, k));
        } else {
            assert forall|j: int|
                0 <= j < t.children@.len() implies !(#[trigger] t.children@[j]).has_key(k) by {
                if j <= i {
                    assert(t.children@[j].all_keys_lt(t.values@[j].value as int));
                    if j < i {
                        assert(Self::values_sorted(t.values@));
                    }
                } else {
                    assert(t.children@[j].all_keys_gt(t.values@[j - 1].value as int));
                    if i < j - 1 {
                        assert(Self::values_sorted(t.values@));
                    }
                }
            }
            Self::lemma_key_in_children_iff(t.children@, k);
            Self::lemma_locs_children_absent(t.children@, k);
        }
        assert(t.locs(k) =~= t.values@[i].location@);
    }

    /// Appending further locations to the entry that already carries a
    /// key changes exactly that key's list and nothing else.
    proof fn lemma_append_at(t: BTree, n: BTree, i: int, extra: Seq<Location>)
        requires
            t.wf(),
            0 <= i < t.values@.len(),
            n.leaf == t.leaf,
            n.children@ == t.children@,
            n.values@.len() == t.values@.len(),
            forall|j: int| 0 <= j < n.values@.len() && j != i ==> n.values@[j] == t.values@[j],
            n.values@[i].value == t.values@[i].value,
            n.values@[i].location@ == t.values@[i].location@ + extra,
        ensures
            n.wf(),
            forall|k: int|
                k != t.values@[i].value as int ==> #[trigger] n.locs(k) == t.locs(k),
            n.locs(t.values@[i].value as int) == t.locs(t.values@[i].value as int) + extra,
            forall|k: int| #[trigger] n.has_key(k) <==> t.has_key(k),
    {
        let key = t.values@[i].value as int;
        assert(forall|j: int|
            0 <= j < n.values@.len() ==> (#[trigger] n.values@[j]).value == t.values@[j].value);
        assert forall|k: int| #[trigger] n.has_key(k) <==> t.has_key(k) by {
            assert(Self::in_values(n.values@, k) <==> Self::in_values(t.values@, k)) by {
                if Self::in_values(n.values@, k) {
                    let j = choose|j: int| 0 <= j < n.values@.len() && n.values@[j].value == k;
                    assert(t.values@[j].value == k);
                }
                if Self::in_values(t.values@, k) {
                    let j = choose|j: int| 0 <= j < t.values@.len() && t.values@[j].value == k;
                    assert(n.values@[j].value == k);
                }
            }
        }
        assert(n.wf()) by {
            assert(Self::values_sorted(n.values@));
            if !n.leaf {
                assert forall|j: int|
                    0 <= j < n.values@.len() implies (#[trigger] n.children@[j]).all_keys_lt(
                    n.values@[j].value as int,
                ) by {
                    assert(t.children@[j].all_keys_lt(t.values@[j].value as int));
                }
                assert forall|j: int|
                    1 <= j < n.children@.len() implies (#[trigger] n.children@[j]).all_keys_gt(
                    n.values@[j - 1].value as int,
                ) by {
                    assert(t.children@[j].all_keys_gt(t.values@[j - 1].value as int));
                }
            }
        }
        Self::lemma_own_key(t, i, key);
        Self::lemma_own_key(n, i, key);
        assert(n.locs(key) =~= t.locs(key) + extra);
        assert forall|k: int| k != key implies #[trigger] n.locs(k) == t.locs(k) by {
            Self::lemma_locs_values_elem_split(t.values@, i, k);
            Self::lemma_locs_values_elem_split(n.values@, i, k);
            assert(n.values@.subrange(0, i) =~= t.values@.subrange(0, i));
            assert(n.values@.subrange(i + 1, n.values@.len() as int) =~= t.values@.subrange(
                i + 1,
                t.values@.len() as int,
            ));
            assert(n.locs(k) =~= t.locs(k));
        }
    }

    /// Inserting a fresh entry into a leaf at its sorted position adds
    /// exactly that entry's content.
    proof fn lemma_leaf_grow(t: BTree, n: BTree, pos: int, inp: ValueStruct)
        requires
            t.leaf,
            t.children@.len() == 0,
            Self::values_sorted(t.values@),
            n.leaf,
            n.children@.len() == 0,
            0 <= pos <= t.values@.len(),
            n.values@ == t.values@.insert(pos, inp),
            forall|j: int| 0 <= j < pos ==> t.values@[j].value < inp.value,
            forall|j: int| pos <= j < t.values@.len() ==> t.values@[j].value > inp.value,
        ensures
            n.wf_wide(),
            n.values@.len() == t.values@.len() + 1,
            forall|k: int| k != inp.value as int ==> #[trigger] n.locs(k) == t.locs(k),
            n.locs(inp.value as int) == t.locs(inp.value as int) + inp.location@,
            forall|k: int| #[trigger] n.has_key(k) <==> (t.has_key(k) || k == inp.value as int),
    {
        let key = inp.value as int;
        let a = t.values@.subrange(0, pos);
        let b = t.values@.subrange(pos, t.values@.len() as int);
        assert(t.values@ =~= a + b);
        assert(n.values@ =~= a + seq![inp] + b);
        assert(Self::values_sorted(n.values@)) by {
            assert(forall|j: int| 0 <= j < a.len() ==> n.values@[j] == t.values@[j]);
            assert(forall|j: int|
                pos < j < n.values@.len() ==> n.values@[j] == t.values@[j - 1]);
            assert(n.values@[pos] == inp);
        }
        assert(n.wf_wide());
        assert(!Self::in_values(t.values@, key));
        assert(!Self::key_in_children(t.children@, key));
        Self::lemma_own_key(n, pos, key);
        t.lemma_locs_absent(key);
        assert(n.locs(key) =~= t.locs(key) + inp.location@);
        assert forall|k: int| k != key implies #[trigger] n.locs(k) == t.locs(k) by {
            Self::lemma_locs_values_app(a + seq![inp], b, k);
            Self::lemma_locs_values_app(a, seq![inp], k);
            Self::lemma_locs_values_app(a, b, k);
            Self::lemma_locs_values_single(inp, k);
            assert(Self::locs_in_children(n.children@, k) =~= Seq::<Location>::empty());
            assert(Self::locs_in_children(t.children@, k) =~= Seq::<Location>::empty());
            assert(n.locs(k) =~= t.locs(k));
        }
        assert forall|k: int| #[trigger] n.has_key(k) <==> (t.has_key(k) || k == key) by {
            if Self::in_values(n.values@, k) {
                let j = choose|j: int| 0 <= j < n.values@.len() && n.values@[j].value == k;
                if j < pos {
                    assert(t.values@[j].value == k);
                } else if j > pos {
                    assert(t.values@[j - 1].value == k);
                }
            }
            if Self::in_values(t.values@, k) {
                let j = choose|j: int| 0 <= j < t.values@.len() && t.values@[j].value == k;
                if j < pos {
                    assert(n.values@[j].value == k);
                } else {
                    assert(n.values@[j + 1].value == k);
                }
            }
            assert(n.values@[pos].value == key);
        }
    }

    /// In a well-formed internal node, a key that is not among the node's
    /// own entries and is bracketed by the keys around child `ci` can live
    /// only in that child.
    proof fn lemma_locs_route(self, ci: int, k: int)
        requires
            self.wf(),
            !self.leaf,
            !Self::in_values(self.values@, k),
            0 <= ci < self.children@.len(),
            ci > 0 ==> self.values@[ci - 1].value < k,
            ci < self.values@.len() ==> k < self.values@[ci].value,
        ensures
            self.locs(k) == self.children@[ci].locs(k),
            self.has_key(k) <==> self.children@[ci].has_key(k),
    {
        let cs = self.children@;
        assert forall|j: int| 0 <= j < cs.len() && j != ci implies !(#[trigger] cs[j]).has_key(
            k,
        ) by {
            if j < ci {
                assert(cs[j].all_keys_lt(self.values@[j].value as int));
                assert(self.values@[j].value <= self.values@[ci - 1].value) by {
                    if j < ci - 1 {
                        assert(Self::values_sorted(self.values@));
                    }
                }
            } else {
                assert(cs[j].all_keys_gt(self.values@[j - 1].value as int));
                assert(self.values@[ci].value <= self.values@[j - 1].value) by {
                    if ci < j - 1 {
                        assert(Self::values_sorted(self.values@));
                    }
                }
            }
        }
        Self::lemma_locs_values_absent(self.values@, k);
        Self::lemma_locs_children_elem_split(cs, ci, k);
        let a = cs.subrange(0, ci);
        let b = cs.subrange(ci + 1, cs.len() as int);
        Self::lemma_key_in_children_iff(a, k);
        Self::lemma_key_in_children_iff(b, k);
        assert(forall|i: int| 0 <= i < a.len() ==> a[i] == cs[i]);
        assert(forall|i: int| 0 <= i < b.len() ==> b[i] == cs[i + ci + 1]);
        Self::lemma_locs_children_absent(a, k);
        Self::lemma_locs_children_absent(b, k);
        assert(self.locs(k) =~= cs[ci].locs(k));
        Self::lemma_key_in_children_iff(cs, k);
    }

    /// Replacing child `ci` of a well-formed internal node by a child
    /// whose content differs only at `key` (bracketed by the keys around
    /// `ci`) changes exactly that key's locations and nothing else.
    proof fn lemma_graft_none(t: BTree, n: BTree, ci: int, cnewb: Box<BTree>, key: int, extra: Seq<Location>)
        requires
            t.wf(),
            !t.leaf,
            !Self::in_values(t.values@, key),
            0 <= ci < t.children@.len(),
            ci > 0 ==> t.values@[ci - 1].value < key,
            ci < t.values@.len() ==> key < t.values@[ci].value,
            cnewb.wf(),
            forall|k: int| k != key ==> #[trigger] cnewb.locs(k) == t.children@[ci].locs(k),
            cnewb.locs(key) == t.children@[ci].locs(key) + extra,
            forall|k: int|
                #[trigger] cnewb.has_key(k) <==> (t.children@[ci].has_key(k) || k == key),
            n.leaf == t.leaf,
            n.values@ == t.values@,
            n.children@ == t.children@.update(ci, cnewb),
        ensures
            n.wf(),
            forall|k: int| k != key ==> #[trigger] n.locs(k) == t.locs(k),
            n.locs(key) == t.locs(key) + extra,
            forall|k: int| #[trigger] n.has_key(k) <==> (t.has_key(k) || k == key),
    {
        let coldb = t.children@[ci];
        assert(n.wf()) by {
            assert(Self::values_sorted(t.values@));
            assert forall|j: int|
                0 <= j < n.children@.len() implies (#[trigger] n.children@[j]).wf() by {
                if j != ci {
                    assert(t.children@[j].wf());
                }
            }
            assert forall|j: int|
                0 <= j < n.values@.len() implies (#[trigger] n.children@[j]).all_keys_lt(
                n.values@[j].value as int,
            ) by {
                assert(t.children@[j].all_keys_lt(t.values@[j].value as int));
                if j == ci {
                    assert forall|k: int| #[trigger] cnewb.has_key(k) implies k
                        < t.values@[j].value as int by {}
                }
            }
            assert forall|j: int|
                1 <= j < n.children@.len() implies (#[trigger] n.children@[j]).all_keys_gt(
                n.values@[j - 1].value as int,
            ) by {
                assert(t.children@[j].all_keys_gt(t.values@[j - 1].value as int));
                if j == ci {
                    assert forall|k: int| #[trigger] cnewb.has_key(k) implies k
                        > t.values@[j - 1].value as int by {}
                }
            }
        }
        t.lemma_locs_route(ci, key);
        n.lemma_locs_route(ci, key);
        assert(n.locs(key) == t.locs(key) + extra);
        assert forall|k: int| k != key implies #[trigger] n.locs(k) == t.locs(k) by {
            Self::lemma_locs_children_elem_split(t.children@, ci, k);
            Self::lemma_locs_children_elem_split(n.children@, ci, k);
            assert(n.children@.subrange(0, ci) =~= t.children@.subrange(0, ci));
            assert(n.children@.subrange(ci + 1, n.children@.len() as int) =~= t.children@.subrange(
                ci + 1,
                t.children@.len() as int,
            ));
            assert(n.locs(k) =~= t.locs(k));
        }
        assert forall|k: int| #[trigger] n.has_key(k) <==> (t.has_key(k) || k == key) by {
            Self::lemma_key_in_children_iff(t.children@, k);
            Self::lemma_key_in_children_iff(n.children@, k);
            if k == key {
                assert(cnewb.has_key(key));
                assert(n.children@[ci] == cnewb);
            } else {
                if Self::key_in_children(n.children@, k) {
                    let j = choose|j: int|
                        0 <= j < n.children@.len() && (#[trigger] n.children@[j]).has_key(k);
                    if j != ci {
                        assert(t.children@[j].has_key(k));
                    }
                }
                if Self::key_in_children(t.children@, k) {
                    let j = choose|j: int|
                        0 <= j < t.children@.len() && (#[trigger] t.children@[j]).has_key(k);
                    if j != ci {
                        assert(n.children@[j].has_key(k));
                    }
                }
            }
        }
    }

    /// Grafting a child split (left part, promoted entry, right sibling)
    /// into a well-formed internal node at position `ci` yields a node in
    /// the transient wide state whose content differs from the old node
    /// exactly at `key`.
    #[verifier::rlimit(100)]
    proof fn lemma_graft_split(
        t: BTree,
        n: BTree,
        ci: int,
        cnewb: Box<BTree>,
        p: ValueStruct,
        rtb: Box<BTree>,
        key: int,
        extra: Seq<Location>,
    )
        requires
            t.wf(),
            !t.leaf,
            !Self::in_values(t.values@, key),
            0 <= ci < t.children@.len(),
            ci > 0 ==> t.values@[ci - 1].value < key,
            ci < t.values@.len() ==> key < t.values@[ci].value,
            cnewb.wf(),
            rtb.wf(),
            cnewb.all_keys_lt(p.value as int),
            rtb.all_keys_gt(p.value as int),
            forall|k: int|
                k != key ==> #[trigger] Self::combined_locs(*cnewb, p, *rtb, k) == t.children@[
                    ci
                ].locs(k),
            Self::combined_locs(*cnewb, p, *rtb, key) == t.children@[ci].locs(key) + extra,
            forall|k: int|
                #[trigger] Self::combined_has(*cnewb, p, *rtb, k) <==> (t.children@[ci].has_key(k)
                    || k == key),
            n.leaf == t.leaf,
            n.values@ == t.values@.insert(ci, p),
            n.children@ == t.children@.update(ci, cnewb).insert(ci + 1, rtb),
        ensures
            n.wf_wide(),
            n.values@.len() == t.values@.len() + 1,
            forall|k: int| k != key ==> #[trigger] n.locs(k) == t.locs(k),
            n.locs(key) == t.locs(key) + extra,
            forall|k: int| #[trigger] n.has_key(k) <==> (t.has_key(k) || k == key),
    {
        let coldb = t.children@[ci];
        let pv = p.value as int;
        let vlen = t.values@.len() as int;
        let clen = t.children@.len() as int;
        let av = t.values@.subrange(0, ci);
        let bv = t.values@.subrange(ci, vlen);
        let ac = t.children@.subrange(0, ci);
        let bc = t.children@.subrange(ci + 1, clen);
        assert(t.values@ =~= av + bv);
        assert(t.children@ =~= ac + seq![coldb] + bc);
        assert(n.values@ =~= av + seq![p] + bv);
        assert(n.children@ =~= ac + seq![cnewb] + seq![rtb] + bc);
        // the promoted key is bracketed like `key`
        assert(Self::combined_has(*cnewb, p, *rtb, pv));
        assert(ci > 0 ==> t.values@[ci - 1].value < pv) by {
            if coldb.has_key(pv) && ci > 0 {
                assert(coldb.all_keys_gt(t.values@[ci - 1].value as int));
            }
        }
        assert(ci < vlen ==> pv < t.values@[ci].value) by {
            if coldb.has_key(pv) && ci < vlen {
                assert(coldb.all_keys_lt(t.values@[ci].value as int));
            }
        }
        assert(!Self::in_values(t.values@, pv)) by {
            assert(Self::values_sorted(t.values@));
            assert forall|j: int| 0 <= j < vlen implies t.values@[j].value != pv by {
                if j < ci {
                    assert(t.values@[j].value <= t.values@[ci - 1].value);
                } else {
                    assert(t.values@[j].value >= t.values@[ci].value);
                }
            }
        }
        // sortedness of the widened key list
        assert(Self::values_sorted(n.values@)) by {
            assert(Self::values_sorted(t.values@));
            assert(forall|j: int| 0 <= j < ci ==> n.values@[j] == t.values@[j]);
            assert(forall|j: int| ci < j < n.values@.len() ==> n.values@[j] == t.values@[j - 1]);
            assert(n.values@[ci] == p);
            assert forall|j: int| 0 <= j < ci implies t.values@[j].value < pv by {
                assert(t.values@[j].value <= t.values@[ci - 1].value);
            }
            assert forall|j: int| ci <= j < vlen implies t.values@[j].value > pv by {
                assert(t.values@[j].value >= t.values@[ci].value);
            }
        }
        // children of the widened node, pointwise
        assert(forall|j: int| 0 <= j < ci ==> n.children@[j] == t.children@[j]);
        assert(forall|j: int|
            ci + 1 < j < n.children@.len() ==> n.children@[j] == t.children@[j - 1]);
        assert(n.children@[ci] == cnewb);
        assert(n.children@[ci + 1] == rtb);
        // every key of either split part lies strictly between the keys
        // that bracketed the old child
        assert forall|k: int| (cnewb.has_key(k) || rtb.has_key(k)) implies ((ci > 0
            ==> t.values@[ci - 1].value < k) && (ci < vlen ==> k < t.values@[ci].value)) by {
            assert(Self::combined_has(*cnewb, p, *rtb, k));
            if coldb.has_key(k) {
                if ci > 0 {
                    assert(coldb.all_keys_gt(t.values@[ci - 1].value as int));
                }
                if ci < vlen {
                    assert(coldb.all_keys_lt(t.values@[ci].value as int));
                }
            }
        }
        assert(n.wf_wide()) by {
            assert forall|j: int|
                0 <= j < n.children@.len() implies (#[trigger] n.children@[j]).wf() by {
                if j < ci {
                    assert(t.children@[j].wf());
                } else if j > ci + 1 {
                    assert(t.children@[j - 1].wf());
                }
            }
            assert forall|j: int|
                0 <= j < n.values@.len() implies (#[trigger] n.children@[j]).all_keys_lt(
                n.values@[j].value as int,
            ) by {
                if j < ci {
                    assert(t.children@[j].all_keys_lt(t.values@[j].value as int));
                } else if j == ci {
                } else if j == ci + 1 {
                    assert forall|k: int| #[trigger] rtb.has_key(k) implies k < n.values@[
                        j
                    ].value as int by {
                        assert(n.values@[j] == t.values@[ci]);
                    }
                } else {
                    assert(t.children@[j - 1].all_keys_lt(t.values@[j - 1].value as int));
                    assert(n.values@[j] == t.values@[j - 1]);
                }
            }
            assert forall|j: int|
                1 <= j < n.children@.len() implies (#[trigger] n.children@[j]).all_keys_gt(
                n.values@[j - 1].value as int,
            ) by {
                if j < ci {
                    assert(t.children@[j].all_keys_gt(t.values@[j - 1].value as int));
                } else if j == ci {
                    assert forall|k: int| #[trigger] cnewb.has_key(k) implies k > n.values@[
                        j - 1
                    ].value as int by {
                        assert(n.values@[j - 1] == t.values@[ci - 1]);
                    }
                } else if j == ci + 1 {
                    assert(n.values@[j - 1] == p);
                } else if j == ci + 2 {
                    assert(t.children@[j - 1].all_keys_gt(t.values@[j - 2].value as int));
                    assert(n.values@[j - 1] == t.values@[ci]);
                } else {
                    assert(t.children@[j - 1].all_keys_gt(t.values@[j - 2].value as int));
                    assert(n.values@[j - 1] == t.values@[j - 2]);
                }
            }
        }
        // content, key by key
        assert forall|k: int|
            (#[trigger] n.locs(k) == (if k == key {
                t.locs(k) + extra
            } else {
                t.locs(k)
            })) && (n.has_key(k) <==> (t.has_key(k) || k == key)) by {
            Self::lemma_locs_values_app(av + seq![p], bv, k);
            Self::lemma_locs_values_app(av, seq![p], k);
            Self::lemma_locs_values_app(av, bv, k);
            Self::lemma_locs_values_single(p, k);
            Self::lemma_locs_children_app(ac + seq![cnewb] + seq![rtb], bc, k);
            Self::lemma_locs_children_app(ac + seq![cnewb], seq![rtb], k);
            Self::lemma_locs_children_app(ac, seq![cnewb], k);
            Self::lemma_locs_children_app(ac + seq![coldb], bc, k);
            Self::lemma_locs_children_app(ac, seq![coldb], k);
            Self::lemma_locs_children_single(cnewb, k);
            Self::lemma_locs_children_single(rtb, k);
            Self::lemma_locs_children_single(coldb, k);
            Self::lemma_key_in_children_iff(t.children@, k);
            Self::lemma_key_in_children_iff(n.children@, k);
            if k == key {
                assert(Self::combined_locs(*cnewb, p, *rtb, k) == coldb.locs(k) + extra);
                assert(Self::combined_has(*cnewb, p, *rtb, k) <==> (coldb.has_key(k) || k
                    == key));
            } else {
                assert(Self::combined_locs(*cnewb, p, *rtb, k) == coldb.locs(k));
                assert(Self::combined_has(*cnewb, p, *rtb, k) <==> (coldb.has_key(k) || k
                    == key));
            }
            if k == pv {
                cnewb.lemma_locs_absent(k);
                rtb.lemma_locs_absent(k);
                Self::lemma_locs_values_absent(av, k);
                Self::lemma_locs_values_absent(bv, k);
                assert forall|j: int|
                    0 <= j < clen && j != ci implies !(#[trigger] t.children@[j]).has_key(k) by {
                    if j < ci {
                        assert(t.children@[j].all_keys_lt(t.values@[j].value as int));
                        assert(t.values@[j].value <= t.values@[ci - 1].value);
                    } else {
                        assert(t.children@[j].all_keys_gt(t.values@[j - 1].value as int));
                        assert(t.values@[j - 1].value >= t.values@[ci].value);
                    }
                }
                assert(forall|j: int| 0 <= j < ac.len() ==> ac[j] == t.children@[j]);
                assert(forall|j: int| 0 <= j < bc.len() ==> bc[j] == t.children@[j + ci + 1]);
                Self::lemma_key_in_children_iff(ac, k);
                Self::lemma_key_in_children_iff(bc, k);
                Self::lemma_locs_children_absent(ac, k);
                Self::lemma_locs_children_absent(bc, k);
                t.lemma_locs_route(ci, k);
                assert(n.locs(k) =~= (if k == key {
                    t.locs(k) + extra
                } else {
                    t.locs(k)
                }));
                assert(n.has_key(k));
                assert(t.has_key(k) || k == key);
            } else {
                // the promoted entry contributes nothing at `k`
                if k == key {
                    assert(!Self::in_values(av, k)) by {
                        assert(forall|j: int| 0 <= j < av.len() ==> av[j] == t.values@[j]);
                    }
                    assert(!Self::in_values(bv, k)) by {
                        assert(forall|j: int| 0 <= j < bv.len() ==> bv[j] == t.values@[j + ci]);
                    }
                    Self::lemma_locs_values_absent(av, k);
                    Self::lemma_locs_values_absent(bv, k);
                    assert forall|j: int|
                        0 <= j < clen && j != ci implies !(#[trigger] t.children@[j]).has_key(
                        k,
                    ) by {
                        if j < ci {
                            assert(t.children@[j].all_keys_lt(t.values@[j].value as int));
                            assert(t.values@[j].value <= t.values@[ci - 1].value);
                        } else {
                            assert(t.children@[j].all_keys_gt(t.values@[j - 1].value as int));
                            assert(t.values@[j - 1].value >= t.values@[ci].value);
                        }
                    }
                    assert(forall|j: int| 0 <= j < ac.len() ==> ac[j] == t.children@[j]);
                    assert(forall|j: int| 0 <= j < bc.len() ==> bc[j] == t.children@[j + ci + 1]);
                    Self::lemma_key_in_children_iff(ac, k);
                    Self::lemma_key_in_children_iff(bc, k);
                    Self::lemma_locs_children_absent(ac, k);
                    Self::lemma_locs_children_absent(bc, k);
                    t.lemma_locs_route(ci, k);
                    assert(n.locs(k) =~= t.locs(k) + extra);
                    assert(cnewb.has_key(k) || rtb.has_key(k));
                    if cnewb.has_key(k) {
                        assert(n.children@[ci].has_key(k));
                    } else {
                        assert(n.children@[ci + 1].has_key(k));
                    }
                    assert(n.has_key(k));
                } else {
                    assert(n.locs(k) =~= t.locs(k));
                    assert(n.has_key(k) <==> (t.has_key(k) || k == key)) by {
                        if Self::key_in_children(n.children@, k) {
                            let j = choose|j: int|
                                0 <= j < n.children@.len() && (#[trigger] n.children@[j]).has_key(
                                    k,
                                );
                            if j == ci || j == ci + 1 {
                                assert(Self::combined_has(*cnewb, p, *rtb, k));
                            } else if j < ci {
                                assert(t.children@[j].has_key(k));
                            } else {
                                assert(t.children@[j - 1].has_key(k));
                            }
                        }
                        if Self::key_in_children(t.children@, k) {
                            let j = choose|j: int|
                                0 <= j < t.children@.len() && (#[trigger] t.children@[j]).has_key(
                                    k,
                                );
                            if j == ci {
                                assert(Self::combined_has(*cnewb, p, *rtb, k));
                                assert(cnewb.has_key(k) || rtb.has_key(k));
                            } else if j < ci {
                                assert(n.children@[j].has_key(k));
                            } else {
                                assert(n.children@[j + 1].has_key(k));
                            }
                        }
                        if Self::in_values(n.values@, k) {
                            let j = choose|j: int|
                                0 <= j < n.values@.len() && n.values@[j].value == k;
                            if j < ci {
                                assert(t.values@[j].value == k);
                            } else if j > ci {
                                assert(t.values@[j - 1].value == k);
                            }
                        }
                        if Self::in_values(t.values@, k) {
                            let j = choose|j: int|
                                0 <= j < t.values@.len() && t.values@[j].value == k;
                            if j < ci {
                                assert(n.values@[j].value == k);
                            } else {
                                assert(n.values@[j + 1].value == k);
                            }
                        }
                    }
                }
            }
        }
        assert(n.locs(key) == t.locs(key) + extra);
        assert forall|k: int| k != key implies #[trigger] n.locs(k) == t.locs(k) by {}
        assert forall|k: int| #[trigger] n.has_key(k) <==> (t.has_key(k) || k == key) by {
            assert(n.locs(k) == n.locs(k));
        }
    }

    /// Decides which child to descend into for a key that is not among
    /// this node's own entries.  A node width other than 0, 1 or 2 keys is
    /// reported as structural corruption rather than assumed impossible.
    pub fn child_index_for(&self, value: i64) -> (r: Result<usize, DbError>)
        requires
            Self::values_sorted(self.values@),
            !Self::in_values(self.values@, value as int),
        ensures
            r is Ok <==> self.values@.len() <= 2,
            r matches Ok(ci) ==> {
                &&& ci <= self.values@.len()
                &&& (ci > 0 ==> self.values@[ci - 1].value < value)
                &&& (ci < self.values@.len() ==> value < self.values@[ci as int].value)
            },
    {
        match self.values.len() {
            0 => Ok(0),
            1 => {
                if value < self.values[0].value {
                    Ok(0)
                } else {
                    Ok(1)
                }
            },
            2 => {
                if value < self.values[0].value {
                    Ok(0)
                } else if value < self.values[1].value {
                    Ok(1)
                } else {
                    Ok(2)
                }
            },
            _ => Err(DbError::StructuralCorruption),
        }
    }

    /// Returns every location recorded for `value`, in insertion order;
    /// an absent key yields an empty list, not an error.
    pub fn search_tree(&self, value: i64) -> (r: Result<Vec<Location>, DbError>)
        requires
            self.wf_root(),
        ensures
            r is Ok,
            r matches Ok(v) ==> v@ == self.locs(value as int),
        decreases *self,
    {
        let k = value;
        let mut i: usize = 0;
        while i < self.values.len()
            invariant
                k == value,
                self.wf_root(),
                i <= self.values@.len(),
                forall|j: int| 0 <= j < i ==> self.values@[j].value != k,
            decreases self.values@.len() - i,
        {
            if self.values[i].value == k {
                let out = clone_locations(&self.values[i].location);
                proof {
                    assert(self.wf());
                    Self::lemma_locs_values_elem_split(self.values@, i as int, k as int);
                    assert(!Self::in_values(self.values@.subrange(0, i as int), k as int));
                    assert(!Self::in_values(
                        self.values@.subrange(i + 1, self.values@.len() as int),
                        k as int,
                    )) by {
                        if self.values@.len() > 0 {
                            assert(Self::values_sorted(self.values@));
                        }
                    }
                    Self::lemma_locs_values_absent(
                        self.values@.subrange(0, i as int),
                        k as int,
                    );
                    Self::lemma_locs_values_absent(
                        self.values@.subrange(i + 1, self.values@.len() as int),
                        k as int,
                    );
                    if self.leaf {
                        assert(Self::locs_in_children(self.children@, k as int) =~= Seq::<
                            Location,
                        >::empty());
                    } else {
                        assert forall|j: int|
                            0 <= j < self.children@.len() implies !(
                        #[trigger] self.children@[j]).has_key(k as int) by {
                            if j <= i {
                                assert(self.children@[j].all_keys_lt(
                                    self.values@[j].value as int,
                                ));
                                if j < i {
                                    assert(Self::values_sorted(self.values@));
                                }
                            } else {
                                assert(self.children@[j].all_keys_gt(
                                    self.values@[j - 1].value as int,
                                ));
                                if i < j - 1 {
                                    assert(Self::values_sorted(self.values@));
                                }
                            }
                        }
                        Self::lemma_key_in_children_iff(self.children@, k as int);
                        Self::lemma_locs_children_absent(self.children@, k as int);
                    }
                    assert(out@ =~= self.locs(k as int));
                }
                return Ok(out);
            }
            i += 1;
        }
        if self.leaf {
            proof {
                assert(!self.has_key(k as int));
                self.lemma_locs_absent(k as int);
            }
            return Ok(Vec::new());
        }
        if self.children.len() != self.values.len() + 1 {
            return Err(DbError::StructuralCorruption);
        }
        let ci = match self.child_index_for(k) {
            Ok(ci) => ci,
            Err(e) => {
                return Err(e);
            },
        };
        proof {
            assert(self.wf());
            self.lemma_locs_route(ci as int, k as int);
            assert((*self.children@[ci as int]).wf());
            assert(decreases_to!(*self => *self.children@[ci as int]));
        }
        self.children[ci].search_tree(k)
    }

    /// Inserts `input` below this node.  Returns `Ok(None)` when the
    /// subtree absorbed the entry, or `Ok(Some((promoted, right)))` when
    /// this node split and the caller must adopt the promoted entry and
    /// the new right sibling.
    #[verifier::rlimit(100)]
    fn insert_recursive(&mut self, input: ValueStruct) -> (r: Result<
        Option<(ValueStruct, Box<BTree>)>,
        DbError,
    >)
        requires
            old(self).wf_root(),
        ensures
            r is Ok,
            r matches Ok(None) ==> {
                &&& final(self).wf()
                &&& (forall|k: int|
                    k != input.value as int ==> #[trigger] final(self).locs(k) == old(
                        self,
                    ).locs(k))
                &&& final(self).locs(input.value as int) == old(self).locs(input.value as int)
                    + input.location@
                &&& (forall|k: int|
                    #[trigger] final(self).has_key(k) <==> (old(self).has_key(k) || k
                        == input.value as int))
            },
            r matches Ok(Some((p, rt))) ==> {
                &&& final(self).wf()
                &&& rt.wf()
                &&& final(self).values@.len() == 1
                &&& rt.values@.len() == 1
                &&& final(self).all_keys_lt(p.value as int)
                &&& rt.all_keys_gt(p.value as int)
                &&& (forall|k: int|
                    k != input.value as int ==> #[trigger] Self::combined_locs(
                        *final(self),
                        p,
                        *rt,
                        k,
                    ) == old(self).locs(k))
                &&& Self::combined_locs(*final(self), p, *rt, input.value as int) == old(
                    self,
                ).locs(input.value as int) + input.location@
                &&& (forall|k: int|
                    #[trigger] Self::combined_has(*final(self), p, *rt, k) <==> (old(
                        self,
                    ).has_key(k) || k == input.value as int))
            },
        decreases *old(self),
    {
        let key = input.value;
        let ghost t0 = *self;
        // is the key already among this node's own entries?
        let mut i: usize = 0;
        while i < self.values.len() && self.values[i].value != key
            invariant
                i <= self.values@.len(),
                forall|j: int| 0 <= j < i ==> self.values@[j].value != key as int,
            decreases self.values@.len() - i,
        {
            i += 1;
        }
        if i < self.values.len() {
            // present: append the new locations, no structural change
            let mut inp = input;
            let mut v = self.values.remove(i);
            v.location.append(&mut inp.location);
            let ghost vnew = v;
            self.values.insert(i, v);
            proof {
                assert(t0.wf());
                assert(self.values@ =~= t0.values@.update(i as int, vnew));
                Self::lemma_append_at(t0, *self, i as int, input.location@);
            }
            return Ok(None);
        }
        // absent here: find the sorted position for it
        let mut pos: usize = 0;
        while pos < self.values.len() && self.values[pos].value < key
            invariant
                pos <= self.values@.len(),
                forall|j: int| 0 <= j < pos ==> self.values@[j].value < key as int,
            decreases self.values@.len() - pos,
        {
            pos += 1;
        }
        proof {
            if self.values@.len() > 0 {
                assert(t0.wf());
                assert(t0.wf_wide());
            }
            assert forall|j: int|
                pos <= j < self.values@.len() implies self.values@[j].value > key as int by {
                assert(self.values@[pos as int].value != key);
                assert(Self::values_sorted(self.values@));
            }
        }
        if self.leaf {
            self.values.insert(pos, input);
            proof {
                Self::lemma_leaf_grow(t0, *self, pos as int, input);
            }
            if self.values.len() <= 2 {
                return Ok(None);
            }
            // the leaf now holds 3 keys: split it
            let ghost w = *self;
            let k0 = self.values.remove(0);
            let k1 = self.values.remove(0);
            let k2 = self.values.remove(0);
            self.values.push(k0);
            let mut rv: Vec<ValueStruct> = Vec::new();
            rv.push(k2);
            let right = Box::new(BTree { values: rv, children: Vec::new(), leaf: true });
            proof {
                assert(k1 == w.values@[1]);
                assert(self.values@ =~= w.values@.subrange(0, 1));
                assert(right.values@ =~= w.values@.subrange(2, 3));
                Self::lemma_split3(w, *self, k1, *right);
                assert forall|k: int|
                    k != input.value as int implies #[trigger] Self::combined_locs(
                    *self,
                    k1,
                    *right,
                    k,
                ) == t0.locs(k) by {
                    assert(Self::combined_locs(*self, k1, *right, k) == w.locs(k));
                    assert(w.locs(k) == t0.locs(k));
                }
                assert(Self::combined_locs(*self, k1, *right, input.value as int) == t0.locs(
                    input.value as int,
                ) + input.location@) by {
                    assert(Self::combined_locs(*self, k1, *right, input.value as int) == w.locs(
                        input.value as int,
                    ));
                }
                assert forall|k: int|
                    #[trigger] Self::combined_has(*self, k1, *right, k) <==> (t0.has_key(k) || k
                        == input.value as int) by {
                    assert(Self::combined_has(*self, k1, *right, k) <==> w.has_key(k));
                    assert(w.has_key(k) <==> (t0.has_key(k) || k == input.value as int));
                }
            }
            return Ok(Some((k1, right)));
        }
        proof {
            assert(t0.wf());
            assert(t0.wf_wide());
        }
        // internal node: the invariant is checked, not assumed
        if self.children.len() != self.values.len() + 1 {
            return Err(DbError::StructuralCorruption);
        }
        let ci = match self.child_index_for(key) {
            Ok(ci) => ci,
            Err(e) => {
                return Err(e);
            },
        };
        let mut child = self.children.remove(ci);
        proof {
            assert(child == t0.children@[ci as int]);
            assert((*child).wf());
            assert(decreases_to!(t0 => *t0.children@[ci as int]));
            assert(decreases_to!(*old(self) => *child));
        }
        let res = child.insert_recursive(input);
        match res {
            Err(e) => {
                self.children.insert(ci, child);
                return Err(e);
            },
            Ok(None) => {
                let ghost gchild = child;
                self.children.insert(ci, child);
                proof {
                    assert(self.children@ =~= t0.children@.update(ci as int, gchild));
                    Self::lemma_graft_none(
                        t0,
                        *self,
                        ci as int,
                        gchild,
                        key as int,
                        input.location@,
                    );
                }
                return Ok(None);
            },
            Ok(Some((p, rt))) => {
                let ghost gchild = child;
                let ghost gp = p;
                let ghost grt = rt;
                self.children.insert(ci, child);
                self.values.insert(ci, p);
                self.children.insert(ci + 1, rt);
                proof {
                    assert(self.values@ =~= t0.values@.insert(ci as int, gp));
                    assert(self.children@ =~= t0.children@.update(ci as int, gchild).insert(
                        ci as int + 1,
                        grt,
                    ));
                    Self::lemma_graft_split(
                        t0,
                        *self,
                        ci as int,
                        gchild,
                        gp,
                        grt,
                        key as int,
                        input.location@,
                    );
                }
                if self.values.len() <= 2 {
                    return Ok(None);
                }
                // the node now holds 3 keys and 4 children: split it
                let ghost w = *self;
                let k0 = self.values.remove(0);
                let k1 = self.values.remove(0);
                let k2 = self.values.remove(0);
                self.values.push(k0);
                let c0 = self.children.remove(0);
                let c1 = self.children.remove(0);
                let c2 = self.children.remove(0);
                let c3 = self.children.remove(0);
                self.children.push(c0);
                self.children.push(c1);
                let mut rv: Vec<ValueStruct> = Vec::new();
                rv.push(k2);
                let mut rc: Vec<Box<BTree>> = Vec::new();
                rc.push(c2);
                rc.push(c3);
                let right = Box::new(BTree { values: rv, children: rc, leaf: false });
                proof {
                    assert(k1 == w.values@[1]);
                    assert(self.values@ =~= w.values@.subrange(0, 1));
                    assert(right.values@ =~= w.values@.subrange(2, 3));
                    assert(self.children@ =~= w.children@.subrange(0, 2));
                    assert(right.children@ =~= w.children@.subrange(2, 4));
                    Self::lemma_split3(w, *self, k1, *right);
                    assert forall|k: int|
                        k != input.value as int implies #[trigger] Self::combined_locs(
                        *self,
                        k1,
                        *right,
                        k,
                    ) == t0.locs(k) by {
                        assert(Self::combined_locs(*self, k1, *right, k) == w.locs(k));
                        assert(w.locs(k) == t0.locs(k));
                    }
                    assert(Self::combined_locs(*self, k1, *right, input.value as int) == t0.locs(
                        input.value as int,
                    ) + input.location@) by {
                        assert(Self::combined_locs(*self, k1, *right, input.value as int)
                            == w.locs(input.value as int));
                    }
                    assert forall|k: int|
                        #[trigger] Self::combined_has(*self, k1, *right, k) <==> (t0.has_key(k)
                            || k == input.value as int) by {
                        assert(Self::combined_has(*self, k1, *right, k) <==> w.has_key(k));
                        assert(w.has_key(k) <==> (t0.has_key(k) || k == input.value as int));
                    }
                }
                return Ok(Some((k1, right)));
            },
        }
    }

    /// Inserts an entry into the tree: appends to the key's location
    /// list when the key is present, places a fresh entry otherwise, and
    /// grows a new root when a split propagates out of the old one.
    #[verifier::rlimit(100)]
    pub fn insert_into_tree(root: &mut Box<BTree>, input: ValueStruct) -> (r: Result<
        bool,
        DbError,
    >)
        requires
            old(root).wf_root(),
        ensures
            r == Ok::<bool, DbError>(true),
            final(root).wf_root(),
            forall|k: int|
                k != input.value as int ==> #[trigger] final(root).locs(k) == old(root).locs(k),
            final(root).locs(input.value as int) == old(root).locs(input.value as int)
                + input.location@,
            forall|k: int|
                #[trigger] final(root).has_key(k) <==> (old(root).has_key(k) || k
                    == input.value as int),
    {
        let res = root.insert_recursive(input);
        match res {
            Ok(None) => {
                proof {
                    assert forall|k: int|
                        #[trigger] root.has_key(k) <==> (old(root).has_key(k) || k
                            == input.value as int) by {
                        assert(root.locs(k) == root.locs(k));
                    }
                }
                Ok(true)
            },
            Ok(Some((promoted, right_sibling))) => {
                // the split reached the root: grow a new root above it
                let mut tmp: Box<BTree> = Box::new(
                    BTree { values: Vec::new(), children: Vec::new(), leaf: true },
                );
                core::mem::swap(root, &mut tmp);
                let ghost gl = tmp;
                let ghost gp = promoted;
                let ghost gr = right_sibling;
                let mut vals: Vec<ValueStruct> = Vec::new();
                vals.push(promoted);
                let mut kids: Vec<Box<BTree>> = Vec::new();
                kids.push(tmp);
                kids.push(right_sibling);
                *root = Box::new(BTree { values: vals, children: kids, leaf: false });
                proof {
                    assert(root.values@ =~= seq![gp]);
                    assert(root.children@ =~= seq![gl, gr]);
                    assert(root.wf()) by {
                        assert(root.children@[0] == gl && root.children@[1] == gr);
                    }
                    assert forall|k: int|
                        #[trigger] root.locs(k) == Self::combined_locs(*gl, gp, *gr, k) && (
                        root.has_key(k) <==> Self::combined_has(*gl, gp, *gr, k)) by {
                        Self::lemma_compose(**root, gl, gp, gr, k);
                    }
                    assert forall|k: int|
                        #[trigger] root.has_key(k) <==> (old(root).has_key(k) || k
                            == input.value as int) by {
                        assert(root.locs(k) == Self::combined_locs(*gl, gp, *gr, k));
                        assert(Self::combined_has(*gl, gp, *gr, k) <==> (old(root).has_key(k)
                            || k == input.value as int));
                    }
                }
                Ok(true)
            },
            Err(e) => Err(e),
        }
    }

    /// Creates an empty tree.
    pub fn new() -> (t: Box<BTree>)
        ensures
            t.wf_root(),
            forall|k: int| !(#[trigger] t.has_key(k)),
            forall|k: int| #[trigger] t.locs(k) == Seq::<Location>::empty(),
    {
        let t = Box::new(BTree { values: Vec::new(), children: Vec::new(), leaf: true });
        proof {
            assert forall|k: int| t.locs(k) == Seq::<Location>::empty() by {
                reveal_with_fuel(BTree::locs_in_values, 1);
                reveal_with_fuel(BTree::locs_in_children, 1);
                assert(t.locs(k) =~= Seq::<Location>::empty());
            }
        }
        t
    }
}

impl BTree {
    /// The concatenation, in insertion order, of every location list
    /// that the insertions `ops` supplied for key `k`.
    pub open spec fn locs_supplied(ops: Seq<(i64, Seq<Location>)>, k: int) -> Seq<Location>
        decreases ops.len(),
    {
        if ops.len() == 0 {
            Seq::empty()
        } else {
            Self::locs_supplied(ops.drop_last(), k) + (if ops.last().0 == k {
                ops.last().1
            } else {
                Seq::empty()
            })
        }
    }

    /// Whether some insertion among `ops` used key `k`.
    pub open spec fn key_supplied(ops: Seq<(i64, Seq<Location>)>, k: int) -> bool {
        exists|i: int| 0 <= i < ops.len() && (#[trigger] ops[i]).0 == k
    }

    /// Whether `t` holds exactly what a run of the insertions `ops` on
    /// an empty tree supplies: each key with the concatenation of its
    /// supplied location lists, and no other key.
    pub open spec fn tracks(t: BTree, ops: Seq<(i64, Seq<Location>)>) -> bool {
        &&& forall|k: int| #[trigger] t.locs(k) == Self::locs_supplied(ops, k)
        &&& forall|k: int| #[trigger] t.has_key(k) <==> Self::key_supplied(ops, k)
    }

    /// Law: a fresh tree is the run of no insertions.
    pub proof fn lemma_run_empty(t: BTree)
        requires
            forall|k: int| !(#[trigger] t.has_key(k)),
            forall|k: int| #[trigger] t.locs(k) == Seq::<Location>::empty(),
        ensures
            Self::tracks(t, Seq::<(i64, Seq<Location>)>::empty()),
    {
    }

    /// Law: one further insertion extends the run.  The inserted key's
    /// list grows by exactly the supplied locations, appended at the
    /// end (a repeated key appends, it never overwrites), and every
    /// other key's list is untouched.  The premises are exactly what
    /// `insert_into_tree` ensures of the trees before and after a call.
    pub proof fn lemma_run_step(
        t1: BTree,
        t2: BTree,
        key: i64,
        locs: Seq<Location>,
        ops: Seq<(i64, Seq<Location>)>,
    )
        requires
            Self::tracks(t1, ops),
            forall|k: int| k != key as int ==> #[trigger] t2.locs(k) == t1.locs(k),
            t2.locs(key as int) == t1.locs(key as int) + locs,
            forall|k: int| #[trigger] t2.has_key(k) <==> (t1.has_key(k) || k == key as int),
        ensures
            Self::tracks(t2, ops.push((key, locs))),
    {
        let ops2 = ops.push((key, locs));
        assert(ops2.drop_last() =~= ops);
        assert(ops2.last() == (key, locs));
        assert forall|k: int| #[trigger] t2.locs(k) == Self::locs_supplied(ops2, k) by {
            assert(t1.locs(k) == Self::locs_supplied(ops, k));
            if k == key as int {
            } else {
                assert(t2.locs(k) =~= Self::locs_supplied(ops, k) + Seq::<Location>::empty());
            }
        }
        assert forall|k: int| #[trigger] t2.has_key(k) <==> Self::key_supplied(ops2, k) by {
            assert(t1.has_key(k) <==> Self::key_supplied(ops, k));
            if k == key as int {
                assert(ops2[ops.len() as int].0 == k);
            } else {
                if Self::key_supplied(ops, k) {
                    let i = choose|i: int| 0 <= i < ops.len() && (#[trigger] ops[i]).0 == k;
                    assert(ops2[i].0 == k);
                }
                if Self::key_supplied(ops2, k) {
                    let i = choose|i: int| 0 <= i < ops2.len() && (#[trigger] ops2[i]).0 == k;
                    assert(ops[i].0 == k);
                }
            }
        }
    }

    /// Insertions that never used `k` supply nothing for it.
    proof fn lemma_supplied_absent(ops: Seq<(i64, Seq<Location>)>, k: int)
        requires
            !Self::key_supplied(ops, k),
        ensures
            Self::locs_supplied(ops, k) == Seq::<Location>::empty(),
        decreases ops.len(),
    {
        if ops.len() == 0 {
        } else {
            assert(!Self::key_supplied(ops.drop_last(), k)) by {
                assert(forall|i: int|
                    0 <= i < ops.len() - 1 ==> ops.drop_last()[i] == ops[i]);
            }
            Self::lemma_supplied_absent(ops.drop_last(), k);
            assert(ops.last().0 != k);
            assert(Self::locs_supplied(ops, k) =~= Seq::<Location>::empty());
        }
    }

    /// When the keys of `ops` are pairwise distinct, the run supplies
    /// for `ops[i]`'s key exactly `ops[i]`'s own locations.
    proof fn lemma_supplied_unique(ops: Seq<(i64, Seq<Location>)>, i: int)
        requires
            forall|x: int, y: int|
                0 <= x < y < ops.len() ==> (#[trigger] ops[x]).0 != (#[trigger] ops[y]).0,
            0 <= i < ops.len(),
        ensures
            Self::locs_supplied(ops, ops[i].0 as int) == ops[i].1,
        decreases ops.len(),
    {
        let k = ops[i].0 as int;
        if i == ops.len() - 1 {
            assert(!Self::key_supplied(ops.drop_last(), k)) by {
                assert(forall|x: int|
                    0 <= x < ops.len() - 1 ==> ops.drop_last()[x] == ops[x]);
            }
            Self::lemma_supplied_absent(ops.drop_last(), k);
            assert(Self::locs_supplied(ops, k) =~= ops[i].1);
        } else {
            assert(forall|x: int|
                0 <= x < ops.len() - 1 ==> ops.drop_last()[x] == ops[x]);
            Self::lemma_supplied_unique(ops.drop_last(), i);
            assert(ops.last().0 != k);
            assert(Self::locs_supplied(ops, k) =~= ops.drop_last()[i].1);
        }
    }

    /// Law: after any run of insertions whose keys are pairwise
    /// distinct, the tree holds, for each inserted key, exactly the
    /// locations supplied at that key's insertion — so a search returns
    /// them, and nothing else, for every key inserted.
    pub proof fn lemma_distinct_run_exact(t: BTree, ops: Seq<(i64, Seq<Location>)>, i: int)
        requires
            Self::tracks(t, ops),
            forall|x: int, y: int|
                0 <= x < y < ops.len() ==> (#[trigger] ops[x]).0 != (#[trigger] ops[y]).0,
            0 <= i < ops.len(),
        ensures
            t.locs(ops[i].0 as int) == ops[i].1,
    {
        Self::lemma_supplied_unique(ops, i);
    }

    /// Law: a key that no insertion of the run used is absent, and its
    /// search result is the empty list.
    pub proof fn lemma_run_absent(t: BTree, ops: Seq<(i64, Seq<Location>)>, k: int)
        requires
            Self::tracks(t, ops),
            !Self::key_supplied(ops, k),
        ensures
            !t.has_key(k),
            t.locs(k) == Seq::<Location>::empty(),
    {
        Self::lemma_supplied_absent(ops, k);
    }

    /// Node-width soundness, node by node: a leaf has no children, an
    /// internal node has exactly one more child than it has keys, and
    /// every node shows 1 or 2 keys.
    pub open spec fn counts_ok(self) -> bool
        decreases self,
    {
        &&& 1 <= self.values@.len() <= 2
        &&& (self.leaf ==> self.children@.len() == 0)
        &&& (!self.leaf ==> self.children@.len() == self.values@.len() + 1)
        &&& (forall|i: int|
            0 <= i < self.children@.len() ==> (#[trigger] self.children@[i]).counts_ok())
    }

    /// Law: every node of a well-formed non-empty tree satisfies the
    /// width laws — `insert` keeps the tree well formed, so the 3-key
    /// state inside a split is never visible from outside.
    pub proof fn lemma_counts_ok(t: BTree)
        requires
            t.wf(),
        ensures
            t.counts_ok(),
        decreases t,
    {
        assert(t.wf_wide());
        assert forall|i: int|
            0 <= i < t.children@.len() implies (#[trigger] t.children@[i]).counts_ok() by {
            assert((*t.children@[i]).wf());
            assert(decreases_to!(t => *t.children@[i]));
            Self::lemma_counts_ok(*t.children@[i]);
        }
    }
}

impl BTree {
    /// The keys of the entries `vs`, left to right.
    pub open spec fn keys_of(vs: Seq<ValueStruct>) -> Seq<int> {
        vs.map_values(|v: ValueStruct| v.value as int)
    }

    /// The in-order interleaving of child key sequences and entry keys:
    /// everything below a child comes before the key that follows it.
    pub open spec fn in_order_parts(vs: Seq<ValueStruct>, cs: Seq<Box<BTree>>) -> Seq<int>
        decreases cs, vs.len(),
    {
        if cs.len() == 0 {
            Self::keys_of(vs)
        } else if vs.len() == 0 {
            cs[0].in_order_keys() + Self::in_order_parts(vs, cs.subrange(1, cs.len() as int))
        } else {
            cs[0].in_order_keys() + seq![vs[0].value as int] + Self::in_order_parts(
                vs.subrange(1, vs.len() as int),
                cs.subrange(1, cs.len() as int),
            )
        }
    }

    /// In-order traversal of the subtree's keys.
    pub open spec fn in_order_keys(self) -> Seq<int>
        decreases self,
    {
        Self::in_order_parts(self.values@, self.children@)
    }

    /// Strictly ascending order on a key sequence.
    pub open spec fn strictly_sorted(s: Seq<int>) -> bool {
        forall|x: int, y: int| 0 <= x < y < s.len() ==> s[x] < s[y]
    }

    /// Two sorted runs concatenate into a sorted run when everything in
    /// the first lies below everything in the second.
    proof fn lemma_sorted_concat(a: Seq<int>, b: Seq<int>)
        requires
            Self::strictly_sorted(a),
            Self::strictly_sorted(b),
            forall|x: int, y: int|
                0 <= x < a.len() && 0 <= y < b.len() ==> #[trigger] a[x] < #[trigger] b[y],
        ensures
            Self::strictly_sorted(a + b),
    {
        assert forall|x: int, y: int| 0 <= x < y < (a + b).len() implies (a + b)[x] < (a
            + b)[y] by {
            if y < a.len() {
            } else if x >= a.len() {
                assert(b[x - a.len()] < b[y - a.len()]);
            } else {
                assert(a[x] < b[y - a.len()]);
            }
        }
    }

    /// In a well-formed subtree the in-order keys are strictly sorted
    /// and are exactly keys the subtree holds.
    proof fn lemma_in_order_wf(t: BTree)
        requires
            t.wf(),
        ensures
            Self::strictly_sorted(t.in_order_keys()),
            forall|j: int|
                0 <= j < t.in_order_keys().len() ==> t.has_key(#[trigger] t.in_order_keys()[j]),
        decreases t,
    {
        assert(t.wf_wide());
        let io = t.in_order_keys();
        if t.leaf {
            assert(io =~= Self::keys_of(t.values@));
            assert forall|j: int| 0 <= j < io.len() implies t.has_key(#[trigger] io[j]) by {
                assert(t.values@[j].value as int == io[j]);
            }
        } else {
            let vs = t.values@;
            let cs = t.children@;
            assert forall|i: int|
                0 <= i < cs.len() implies Self::strictly_sorted(
                (#[trigger] cs[i]).in_order_keys()) && (forall|j: int|
                0 <= j < cs[i].in_order_keys().len() ==> cs[i].has_key(
                    #[trigger] cs[i].in_order_keys()[j],
                )) by {
                assert((*cs[i]).wf());
                assert(decreases_to!(t => *cs[i]));
                Self::lemma_in_order_wf(*cs[i]);
            }
            Self::lemma_key_in_children_iff(cs, 0);
            if vs.len() == 1 {
                let tail1 = Self::in_order_parts(vs.subrange(1, 1), cs.subrange(1, 2));
                assert(cs.subrange(1, 2)[0] == cs[1]);
                assert(tail1 == cs[1].in_order_keys() + Self::in_order_parts(
                    vs.subrange(1, 1),
                    Seq::<Box<BTree>>::empty(),
                )) by {
                    assert(cs.subrange(1, 2).subrange(1, 1) =~= Seq::<Box<BTree>>::empty());
                }
                assert(Self::in_order_parts(vs.subrange(1, 1), Seq::<Box<BTree>>::empty())
                    =~= Seq::<int>::empty());
                assert(tail1 =~= cs[1].in_order_keys());
                assert(io =~= cs[0].in_order_keys() + seq![vs[0].value as int]
                    + cs[1].in_order_keys());
                Self::lemma_sorted_concat(cs[0].in_order_keys(), seq![vs[0].value as int]);
                Self::lemma_sorted_concat(
                    cs[0].in_order_keys() + seq![vs[0].value as int],
                    cs[1].in_order_keys(),
                );
                assert(Self::strictly_sorted(io));
                assert forall|j: int| 0 <= j < io.len() implies t.has_key(#[trigger] io[j]) by {
                    let l0 = cs[0].in_order_keys().len() as int;
                    if j < l0 {
                        assert(cs[0].has_key(io[j]));
                        Self::lemma_key_in_children_iff(cs, io[j]);
                    } else if j == l0 {
                        assert(io[j] == vs[0].value as int);
                    } else {
                        assert(cs[1].has_key(io[j]));
                        Self::lemma_key_in_children_iff(cs, io[j]);
                    }
                }
            } else {
                let tail2 = Self::in_order_parts(vs.subrange(1, 2), cs.subrange(1, 3));
                assert(cs.subrange(1, 3)[0] == cs[1]);
                assert(vs.subrange(1, 2)[0] == vs[1]);
                let tail1 = Self::in_order_parts(
                    vs.subrange(1, 2).subrange(1, 1),
                    cs.subrange(1, 3).subrange(1, 2),
                );
                assert(cs.subrange(1, 3).subrange(1, 2) =~= cs.subrange(2, 3));
                assert(cs.subrange(2, 3)[0] == cs[2]);
                assert(tail1 == cs[2].in_order_keys() + Self::in_order_parts(
                    vs.subrange(1, 2).subrange(1, 1),
                    cs.subrange(2, 3).subrange(1, 1),
                )) by {
                    assert(vs.subrange(1, 2).subrange(1, 1) =~= Seq::<ValueStruct>::empty());
                }
                assert(Self::in_order_parts(
                    vs.subrange(1, 2).subrange(1, 1),
                    cs.subrange(2, 3).subrange(1, 1),
                ) =~= Seq::<int>::empty()) by {
                    assert(cs.subrange(2, 3).subrange(1, 1) =~= Seq::<Box<BTree>>::empty());
                    assert(vs.subrange(1, 2).subrange(1, 1) =~= Seq::<ValueStruct>::empty());
                }
                assert(tail1 =~= cs[2].in_order_keys());
                assert(tail2 =~= cs[1].in_order_keys() + seq![vs[1].value as int]
                    + cs[2].in_order_keys());
                assert(io =~= cs[0].in_order_keys() + seq![vs[0].value as int]
                    + cs[1].in_order_keys() + seq![vs[1].value as int] + cs[2].in_order_keys());
                Self::lemma_sorted_concat(cs[0].in_order_keys(), seq![vs[0].value as int]);
                Self::lemma_sorted_concat(
                    cs[0].in_order_keys() + seq![vs[0].value as int],
                    cs[1].in_order_keys(),
                );
                Self::lemma_sorted_concat(
                    cs[0].in_order_keys() + seq![vs[0].value as int] + cs[1].in_order_keys(),
                    seq![vs[1].value as int],
                );
                Self::lemma_sorted_concat(
                    cs[0].in_order_keys() + seq![vs[0].value as int] + cs[1].in_order_keys()
                        + seq![vs[1].value as int],
                    cs[2].in_order_keys(),
                );
                assert(Self::strictly_sorted(io));
                assert forall|j: int| 0 <= j < io.len() implies t.has_key(#[trigger] io[j]) by {
                    let l0 = cs[0].in_order_keys().len() as int;
                    let l1 = cs[1].in_order_keys().len() as int;
                    if j < l0 {
                        assert(cs[0].has_key(io[j]));
                        Self::lemma_key_in_children_iff(cs, io[j]);
                    } else if j == l0 {
                        assert(io[j] == vs[0].value as int);
                    } else if j < l0 + 1 + l1 {
                        assert(cs[1].has_key(io[j]));
                        Self::lemma_key_in_children_iff(cs, io[j]);
                    } else if j == l0 + 1 + l1 {
                        assert(io[j] == vs[1].value as int);
                    } else {
                        assert(cs[2].has_key(io[j]));
                        Self::lemma_key_in_children_iff(cs, io[j]);
                    }
                }
            }
        }
    }

    /// Law: in-order traversal of the tree yields strictly increasing
    /// keys, whatever order the insertions came in.
    pub proof fn lemma_in_order_sorted(t: BTree)
        requires
            t.wf_root(),
        ensures
            Self::strictly_sorted(t.in_order_keys()),
    {
        if t.values@.len() == 0 {
            assert(t.in_order_keys() =~= Self::keys_of(t.values@));
        } else {
            Self::lemma_in_order_wf(t);
        }
    }
}

/// Copies a location list element by element.
fn clone_locations(src: &Vec<Location>) -> (out: Vec<Location>)
    ensures
        out@ == src@,
{
    let mut out: Vec<Location> = Vec::new();
    let mut i: usize = 0;
    while i < src.len()
        invariant
            i <= src@.len(),
            out@ == src@.subrange(0, i as int),
        decreases src@.len() - i,
    {
        out.push(src[i]);
        proof {
            assert(out@ =~= src@.subrange(0, i + 1));
        }
        i += 1;
    }
    proof {
        assert(out@ =~= src@);
    }
    out
}

} // verus!
