//! The group engine: an arena of groups indexed by stable handles, with a
//! forwarding table that records which groups were folded into which. A
//! handle that was merged away resolves, by chasing forwarding records, to
//! the group that absorbed it; the chase is `find`. Forwarding records
//! always point to a smaller index, so every chase terminates and the
//! representative of a set of merged groups is the least handle among them,
//! whatever the order of the merges.

use vstd::prelude::*;
use vstd::pervasive::VecAdditionalExecFns;
use crate::game_data::GroupId;
use crate::group::Group;
use crate::hex::{radius_ok, spec_classify, CellKind, Hex};

verus! {

/// One slot of the arena: a live group, or a forwarding record left behind
/// when the group at this slot was merged into another.
#[derive(Clone)]
pub enum GroupSlot {
    Live(Group),
    Forwarded(GroupId),
}

/// Every forwarding record points to a strictly smaller slot.
pub open spec fn fwd_wf(s: Seq<GroupSlot>) -> bool {
    forall|i: int|
        0 <= i < s.len() ==> match #[trigger] s[i] {
            GroupSlot::Forwarded(j) => (j.0 as int) < i,
            GroupSlot::Live(g) => true,
        }
}

/// Every forwarding record points to a strictly smaller slot, and every
/// live group is well formed.
pub open spec fn slots_wf(s: Seq<GroupSlot>) -> bool {
    forall|i: int|
        0 <= i < s.len() ==> match #[trigger] s[i] {
            GroupSlot::Forwarded(j) => (j.0 as int) < i,
            GroupSlot::Live(g) => g.wf(),
        }
}

/// The representative of slot `i`: the slot reached by chasing forwarding
/// records until a live group is found.
pub open spec fn root_of(s: Seq<GroupSlot>, i: int) -> int
    decreases i,
{
    if 0 <= i < s.len() {
        match s[i] {
            GroupSlot::Live(_) => i,
            GroupSlot::Forwarded(j) => if (j.0 as int) < i {
                root_of(s, j.0 as int)
            } else {
                i
            },
        }
    } else {
        i
    }
}

/// The live group at slot `i`.
pub open spec fn group_at(s: Seq<GroupSlot>, i: int) -> Group
    recommends
        0 <= i < s.len(),
        s[i] is Live,
{
    s[i]->Live_0
}

/// In a well-formed arena every chase ends at a live slot.
pub proof fn lemma_root_live(s: Seq<GroupSlot>, i: int)
    requires
        fwd_wf(s),
        0 <= i < s.len(),
    ensures
        0 <= root_of(s, i) <= i,
        s[root_of(s, i)] is Live,
    decreases i,
{
    match s[i] {
        GroupSlot::Live(_) => {},
        GroupSlot::Forwarded(j) => {
            lemma_root_live(s, j.0 as int);
        },
    }
}

/// How one merge changes the arena: with `r` the lesser and `o` the greater
/// of the two representatives, slot `o` becomes a forwarding record to `r`,
/// the group at `r` absorbs the masks and stones of the group at `o`, and
/// every other slot is untouched.
pub open spec fn merge_rel(s1: Seq<GroupSlot>, s2: Seq<GroupSlot>, a: int, b: int) -> bool {
    let ra = root_of(s1, a);
    let rb = root_of(s1, b);
    let r = if ra <= rb {
        ra
    } else {
        rb
    };
    let o = if ra <= rb {
        rb
    } else {
        ra
    };
    &&& s2.len() == s1.len()
    &&& s2[o] is Forwarded
    &&& ((s2[o]->Forwarded_0).0 as int) == r
    &&& s2[r] is Live
    &&& group_at(s2, r).edge_mask() == group_at(s1, r).edge_mask() | group_at(s1, o).edge_mask()
    &&& group_at(s2, r).corner_mask() == group_at(s1, r).corner_mask() | group_at(
        s1,
        o,
    ).corner_mask()
    &&& group_at(s2, r).stones() == group_at(s1, r).stones() + group_at(s1, o).stones()
    &&& forall|k: int| 0 <= k < s2.len() && k != r && k != o ==> s2[k] == s1[k]
}

/// After a merge, every handle that resolved to either of the two merged
/// representatives resolves to the lesser of them, and every other handle
/// resolves exactly as before.
pub proof fn lemma_root_after_merge(s1: Seq<GroupSlot>, s2: Seq<GroupSlot>, a: int, b: int, k: int)
    requires
        fwd_wf(s1),
        0 <= a < s1.len(),
        0 <= b < s1.len(),
        root_of(s1, a) != root_of(s1, b),
        merge_rel(s1, s2, a, b),
        0 <= k < s2.len(),
    ensures
        root_of(s2, k) == (if root_of(s1, k) == (if root_of(s1, a) <= root_of(s1, b) {
            root_of(s1, b)
        } else {
            root_of(s1, a)
        }) {
            if root_of(s1, a) <= root_of(s1, b) {
                root_of(s1, a)
            } else {
                root_of(s1, b)
            }
        } else {
            root_of(s1, k)
        }),
    decreases k,
{
    let ra = root_of(s1, a);
    let rb = root_of(s1, b);
    let r = if ra <= rb {
        ra
    } else {
        rb
    };
    let o = if ra <= rb {
        rb
    } else {
        ra
    };
    lemma_root_live(s1, a);
    lemma_root_live(s1, b);
    if k == o {
        assert(0 <= r < o);
        assert(s2[o] is Forwarded && ((s2[o]->Forwarded_0).0 as int) == r);
        assert(root_of(s2, o) == root_of(s2, r));
        assert(s2[r] is Live);
        assert(root_of(s2, r) == r);
    } else if k == r {
    } else {
        match s1[k] {
            GroupSlot::Live(_) => {
                assert(root_of(s1, k) == k);
                assert(root_of(s2, k) == k);
            },
            GroupSlot::Forwarded(j) => {
                lemma_root_after_merge(s1, s2, a, b, j.0 as int);
            },
        }
    }
}

/// A merge keeps the arena well formed.
pub proof fn lemma_merge_wf(s1: Seq<GroupSlot>, s2: Seq<GroupSlot>, a: int, b: int)
    requires
        slots_wf(s1),
        0 <= a < s1.len(),
        0 <= b < s1.len(),
        root_of(s1, a) != root_of(s1, b),
        merge_rel(s1, s2, a, b),
        group_at(s2, if root_of(s1, a) <= root_of(s1, b) {
            root_of(s1, a)
        } else {
            root_of(s1, b)
        }).wf(),
    ensures
        slots_wf(s2),
{
    let ra = root_of(s1, a);
    let rb = root_of(s1, b);
    let r = if ra <= rb {
        ra
    } else {
        rb
    };
    let o = if ra <= rb {
        rb
    } else {
        ra
    };
    lemma_root_live(s1, a);
    lemma_root_live(s1, b);
    assert forall|i: int| 0 <= i < s2.len() implies match #[trigger] s2[i] {
        GroupSlot::Forwarded(j) => (j.0 as int) < i,
        GroupSlot::Live(g) => g.wf(),
    } by {
        if i == o {
            assert(r < o);
        } else if i == r {
        } else {
            assert(s2[i] == s1[i]);
        }
    }
}

/// Replacing the live group at a slot by another live group moves no
/// forwarding record, so every handle keeps its representative.
pub proof fn lemma_root_after_live_update(s1: Seq<GroupSlot>, s2: Seq<GroupSlot>, r: int, k: int)
    requires
        fwd_wf(s1),
        0 <= r < s1.len(),
        s1[r] is Live,
        s2.len() == s1.len(),
        s2[r] is Live,
        forall|j: int| 0 <= j < s2.len() && j != r ==> s2[j] == s1[j],
        0 <= k < s2.len(),
    ensures
        root_of(s2, k) == root_of(s1, k),
    decreases k,
{
    if k != r {
        match s1[k] {
            GroupSlot::Live(_) => {},
            GroupSlot::Forwarded(j) => {
                lemma_root_after_live_update(s1, s2, r, j.0 as int);
            },
        }
    }
}

/// The arena itself: the slot table.
#[derive(Clone)]
pub struct GroupArena {
    slots: Vec<GroupSlot>,
}

impl GroupArena {
    /// The slot table, for specification purposes.
    pub closed spec fn slots(self) -> Seq<GroupSlot> {
        self.slots@
    }

    /// Whether the arena is well formed.
    pub open spec fn wf(self) -> bool {
        slots_wf(self.slots())
    }

    /// An arena with no groups.
    pub fn new() -> (r: Self)
        ensures
            r.wf(),
            r.slots().len() == 0,
    {
        GroupArena { slots: Vec::new() }
    }

    /// Allocate a fresh, empty group and hand out its never-issued handle.
    pub fn new_group(&mut self) -> (r: GroupId)
        requires
            old(self).wf(),
        ensures
            final(self).wf(),
            r.0 as int == old(self).slots().len(),
            final(self).slots().len() == old(self).slots().len() + 1,
            forall|k: int|
                0 <= k < old(self).slots().len() ==> final(self).slots()[k] == old(self).slots()[k],
            final(self).slots()[r.0 as int] is Live,
            group_at(final(self).slots(), r.0 as int).edge_mask() == 0,
            group_at(final(self).slots(), r.0 as int).corner_mask() == 0,
            group_at(final(self).slots(), r.0 as int).stones() == Seq::<Hex>::empty(),
            forall|k: int|
                0 <= k < old(self).slots().len() ==> root_of(final(self).slots(), k) == root_of(
                    old(self).slots(),
                    k,
                ),
    {
        let id = GroupId(self.slots.len());
        self.slots.push(GroupSlot::Live(Group::new()));
        proof {
            assert forall|k: int| 0 <= k < old(self).slots().len() implies root_of(
                self.slots(),
                k,
            ) == root_of(old(self).slots(), k) by {
                lemma_root_push_preserves(old(self).slots(), self.slots(), k);
            }
        }
        id
    }

    /// Resolve a handle to its current representative: chase forwarding
    /// records until a live group is found.
    pub fn find(&self, id: GroupId) -> (r: GroupId)
        requires
            self.wf(),
            (id.0 as int) < self.slots().len(),
        ensures
            r.0 as int == root_of(self.slots(), id.0 as int),
            self.slots()[r.0 as int] is Live,
            r.0 <= id.0,
    {
        let mut cur: usize = id.0;
        loop
            invariant
                self.wf(),
                cur <= id.0,
                (cur as int) < self.slots().len(),
                root_of(self.slots(), cur as int) == root_of(self.slots(), id.0 as int),
            decreases cur,
        {
            match &self.slots[cur] {
                GroupSlot::Live(_) => {
                    return GroupId(cur);
                },
                GroupSlot::Forwarded(j) => {
                    cur = j.0;
                },
            }
        }
    }

    /// Borrow the live group a handle currently resolves to.
    pub fn group(&self, id: GroupId) -> (r: &Group)
        requires
            self.wf(),
            (id.0 as int) < self.slots().len(),
        ensures
            *r == group_at(self.slots(), root_of(self.slots(), id.0 as int)),
    {
        let root = self.find(id);
        match &self.slots[root.0] {
            GroupSlot::Live(g) => g,
            GroupSlot::Forwarded(_) => {
                proof {
                    assert(false);
                }
                vstd::pervasive::unreached()
            },
        }
    }

    /// Fold the group `from` resolves to into the group `into` resolves to.
    /// The two must resolve to different groups; callers de-duplicate
    /// handles by representative first. The lesser representative survives
    /// and absorbs the other's masks and stones; the greater becomes a
    /// forwarding record.
    pub fn merge(&mut self, into: GroupId, from: GroupId)
        requires
            old(self).wf(),
            (into.0 as int) < old(self).slots().len(),
            (from.0 as int) < old(self).slots().len(),
            root_of(old(self).slots(), into.0 as int) != root_of(old(self).slots(), from.0 as int),
        ensures
            final(self).wf(),
            merge_rel(old(self).slots(), final(self).slots(), into.0 as int, from.0 as int),
            forall|k: int|
                0 <= k < final(self).slots().len() ==> root_of(final(self).slots(), k) == (if
                root_of(old(self).slots(), k) == (if root_of(old(self).slots(), into.0 as int)
                    <= root_of(old(self).slots(), from.0 as int) {
                    root_of(old(self).slots(), from.0 as int)
                } else {
                    root_of(old(self).slots(), into.0 as int)
                }) {
                    if root_of(old(self).slots(), into.0 as int) <= root_of(
                        old(self).slots(),
                        from.0 as int,
                    ) {
                        root_of(old(self).slots(), into.0 as int)
                    } else {
                        root_of(old(self).slots(), from.0 as int)
                    }
                } else {
                    root_of(old(self).slots(), k)
                }),
    {
        let ra = self.find(into);
        let rb = self.find(from);
        let (r, o) = if ra.0 < rb.0 {
            (ra.0, rb.0)
        } else {
            (rb.0, ra.0)
        };
        // take the absorbed group out, leaving the forwarding record behind
        let mut taken = GroupSlot::Forwarded(GroupId(r));
        self.slots.set_and_swap(o, &mut taken);
        let absorbed = match taken {
            GroupSlot::Live(g) => g,
            GroupSlot::Forwarded(_) => {
                proof {
                    assert(false);
                }
                vstd::pervasive::unreached()
            },
        };
        // take the survivor out, fold, and put it back
        let mut taken2 = GroupSlot::Forwarded(GroupId(r));
        self.slots.set_and_swap(r, &mut taken2);
        let mut survivor = match taken2 {
            GroupSlot::Live(g) => g,
            GroupSlot::Forwarded(_) => {
                proof {
                    assert(false);
                }
                vstd::pervasive::unreached()
            },
        };
        survivor.merge(&absorbed);
        self.slots.set(r, GroupSlot::Live(survivor));
        proof {
            let s1 = old(self).slots();
            let s2 = self.slots();
            assert(merge_rel(s1, s2, into.0 as int, from.0 as int));
            lemma_merge_wf(s1, s2, into.0 as int, from.0 as int);
            assert forall|k: int| 0 <= k < s2.len() implies root_of(s2, k) == (if root_of(s1, k)
                == (if root_of(s1, into.0 as int) <= root_of(s1, from.0 as int) {
                root_of(s1, from.0 as int)
            } else {
                root_of(s1, into.0 as int)
            }) {
                if root_of(s1, into.0 as int) <= root_of(s1, from.0 as int) {
                    root_of(s1, into.0 as int)
                } else {
                    root_of(s1, from.0 as int)
                }
            } else {
                root_of(s1, k)
            }) by {
                lemma_root_after_merge(s1, s2, into.0 as int, from.0 as int, k);
            }
        }
    }

    /// Append a stone to the group a handle resolves to, and set the edge
    /// or corner bit of the cell's classification.
    pub fn add_stone_and_classify(&mut self, id: GroupId, hex: Hex, radius: usize)
        requires
            old(self).wf(),
            (id.0 as int) < old(self).slots().len(),
            radius_ok(radius as int),
            hex.in_bounds(radius as int),
        ensures
            final(self).wf(),
            final(self).slots().len() == old(self).slots().len(),
            forall|k: int|
                0 <= k < final(self).slots().len() && k != root_of(old(self).slots(), id.0 as int)
                    ==> final(self).slots()[k] == old(self).slots()[k],
            forall|k: int|
                0 <= k < final(self).slots().len() ==> root_of(final(self).slots(), k) == root_of(
                    old(self).slots(),
                    k,
                ),
            final(self).slots()[root_of(old(self).slots(), id.0 as int)] is Live,
            ({
                let r = root_of(old(self).slots(), id.0 as int);
                let g1 = group_at(old(self).slots(), r);
                let g2 = group_at(final(self).slots(), r);
                &&& g2.stones() == g1.stones().push(hex)
                &&& g2.edge_mask() == (match spec_classify(hex, radius as int) {
                    CellKind::Edge(i) => g1.edge_mask() | crate::group::mask_bit(i as int),
                    _ => g1.edge_mask(),
                })
                &&& g2.corner_mask() == (match spec_classify(hex, radius as int) {
                    CellKind::Corner(i) => g1.corner_mask() | crate::group::mask_bit(i as int),
                    _ => g1.corner_mask(),
                })
            }),
    {
        let root = self.find(id);
        let mut taken = GroupSlot::Forwarded(GroupId(0));
        self.slots.set_and_swap(root.0, &mut taken);
        let mut g = match taken {
            GroupSlot::Live(g) => g,
            GroupSlot::Forwarded(_) => {
                proof {
                    assert(false);
                }
                vstd::pervasive::unreached()
            },
        };
        g.add_hex(hex);
        match crate::hex::classify(hex, radius) {
            CellKind::Interior => {},
            CellKind::Edge(i) => g.add_edge(i as usize),
            CellKind::Corner(i) => g.add_corner(i as usize),
        }
        self.slots.set(root.0, GroupSlot::Live(g));
        proof {
            let s1 = old(self).slots();
            let s2 = self.slots();
            assert forall|k: int| 0 <= k < s2.len() implies root_of(s2, k) == root_of(s1, k) by {
                lemma_root_after_live_update(s1, s2, root.0 as int, k);
            }
            assert forall|i: int| 0 <= i < s2.len() implies match #[trigger] s2[i] {
                GroupSlot::Forwarded(j) => (j.0 as int) < i,
                GroupSlot::Live(g) => g.wf(),
            } by {
                if i != root.0 as int {
                    assert(s2[i] == s1[i]);
                }
            }
        }
    }
}


/// Resolving a handle is idempotent: the representative of a representative
/// is itself.
pub proof fn lemma_find_idempotent(s: Seq<GroupSlot>, i: int)
    requires
        fwd_wf(s),
        0 <= i < s.len(),
    ensures
        root_of(s, root_of(s, i)) == root_of(s, i),
{
    lemma_root_live(s, i);
}

/// Merging is symmetric in its two handles: the states related by a merge
/// of `a` with `b` are exactly those related by a merge of `b` with `a`.
pub proof fn lemma_merge_arguments_commute(s1: Seq<GroupSlot>, s2: Seq<GroupSlot>, a: int, b: int)
    ensures
        merge_rel(s1, s2, a, b) == merge_rel(s1, s2, b, a),
{
}

/// A merge moves forwarding records only downwards.
pub proof fn lemma_merge_fwd(s1: Seq<GroupSlot>, s2: Seq<GroupSlot>, a: int, b: int)
    requires
        fwd_wf(s1),
        0 <= a < s1.len(),
        0 <= b < s1.len(),
        root_of(s1, a) != root_of(s1, b),
        merge_rel(s1, s2, a, b),
    ensures
        fwd_wf(s2),
{
    let ra = root_of(s1, a);
    let rb = root_of(s1, b);
    let r = if ra <= rb {
        ra
    } else {
        rb
    };
    let o = if ra <= rb {
        rb
    } else {
        ra
    };
    lemma_root_live(s1, a);
    lemma_root_live(s1, b);
    assert forall|i: int| 0 <= i < s2.len() implies match #[trigger] s2[i] {
        GroupSlot::Forwarded(j) => (j.0 as int) < i,
        GroupSlot::Live(g) => true,
    } by {
        if i == o {
            assert(r < o);
        } else if i == r {
        } else {
            assert(s2[i] == s1[i]);
        }
    }
}

/// Union-find soundness: merging the groups of `a` and `b` and then those
/// of `a` and `c` leaves every handle with the same representative as
/// merging the groups of `a` and `c` first and those of `a` and `b`
/// second. The representative of a set of merged groups does not depend on
/// the order of the merges.
pub proof fn lemma_merge_order_independent(
    s0: Seq<GroupSlot>,
    s1: Seq<GroupSlot>,
    s2: Seq<GroupSlot>,
    t1: Seq<GroupSlot>,
    t2: Seq<GroupSlot>,
    a: int,
    b: int,
    c: int,
)
    requires
        fwd_wf(s0),
        0 <= a < s0.len(),
        0 <= b < s0.len(),
        0 <= c < s0.len(),
        root_of(s0, a) != root_of(s0, b),
        root_of(s0, a) != root_of(s0, c),
        root_of(s0, b) != root_of(s0, c),
        merge_rel(s0, s1, a, b),
        merge_rel(s1, s2, a, c),
        merge_rel(s0, t1, a, c),
        merge_rel(t1, t2, a, b),
    ensures
        forall|k: int| 0 <= k < s0.len() ==> root_of(s2, k) == root_of(t2, k),
{
    lemma_merge_fwd(s0, s1, a, b);
    lemma_merge_fwd(s0, t1, a, c);
    lemma_root_after_merge(s0, s1, a, b, a);
    lemma_root_after_merge(s0, s1, a, b, c);
    lemma_root_after_merge(s0, t1, a, c, a);
    lemma_root_after_merge(s0, t1, a, c, b);
    assert forall|k: int| 0 <= k < s0.len() implies root_of(s2, k) == root_of(t2, k) by {
        lemma_root_after_merge(s0, s1, a, b, k);
        lemma_root_after_merge(s1, s2, a, c, k);
        lemma_root_after_merge(s0, t1, a, c, k);
        lemma_root_after_merge(t1, t2, a, b, k);
    }
}

/// Pushing a new slot moves no forwarding record of the old slots.
pub proof fn lemma_root_push_preserves(s1: Seq<GroupSlot>, s2: Seq<GroupSlot>, k: int)
    requires
        fwd_wf(s1),
        s2.len() == s1.len() + 1,
        forall|j: int| 0 <= j < s1.len() ==> s2[j] == s1[j],
        0 <= k < s1.len(),
    ensures
        root_of(s2, k) == root_of(s1, k),
    decreases k,
{
    match s1[k] {
        GroupSlot::Live(_) => {},
        GroupSlot::Forwarded(j) => {
            lemma_root_push_preserves(s1, s2, j.0 as int);
        },
    }
}

} // verus!
