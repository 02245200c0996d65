//! Groups of stones: each group is a set of same-player stones together
//! with bitmasks of the board edges and corners it touches, and the ring
//! detector that runs when a stone is added.

use vstd::prelude::*;
use crate::hex::{adjacent, dir_dx, dir_dy, dir_offset, spec_classify, CellKind, Hex};

verus! {

/// Whether bit `i` of the mask is set.
pub open spec fn bit_set(m: u8, i: int) -> bool {
    0 <= i < 8 && (m >> (i as u8)) & 1 == 1
}

/// The mask with exactly bit `i` set, for `i` in `0..6`.
pub open spec fn mask_bit(i: int) -> u8 {
    if i == 0 {
        1
    } else if i == 1 {
        2
    } else if i == 2 {
        4
    } else if i == 3 {
        8
    } else if i == 4 {
        16
    } else {
        32
    }
}

/// How many of the six low bits of the mask are set.
pub open spec fn mask_count(m: u8) -> int {
    (if bit_set(m, 0) {
        1int
    } else {
        0int
    }) + (if bit_set(m, 1) {
        1int
    } else {
        0int
    }) + (if bit_set(m, 2) {
        1int
    } else {
        0int
    }) + (if bit_set(m, 3) {
        1int
    } else {
        0int
    }) + (if bit_set(m, 4) {
        1int
    } else {
        0int
    }) + (if bit_set(m, 5) {
        1int
    } else {
        0int
    })
}

/// Count the set bits of a six-bit mask.
pub fn count_mask_bits(m: u8) -> (r: u8)
    ensures
        r as int == mask_count(m),
        r <= 6,
{
    let b0: u8 = if (m >> 0u8) & 1 == 1 {
        1
    } else {
        0
    };
    let b1: u8 = if (m >> 1u8) & 1 == 1 {
        1
    } else {
        0
    };
    let b2: u8 = if (m >> 2u8) & 1 == 1 {
        1
    } else {
        0
    };
    let b3: u8 = if (m >> 3u8) & 1 == 1 {
        1
    } else {
        0
    };
    let b4: u8 = if (m >> 4u8) & 1 == 1 {
        1
    } else {
        0
    };
    let b5: u8 = if (m >> 5u8) & 1 == 1 {
        1
    } else {
        0
    };
    b0 + b1 + b2 + b3 + b4 + b5
}

/// Whether some stone of the list has exactly the coordinates `(x, y)`.
pub open spec fn stones_contain(stones: Seq<Hex>, x: int, y: int) -> bool {
    exists|k: int| 0 <= k < stones.len() && stones[k].x as int == x && stones[k].y as int == y
}

/// How many stones of the list are neighbors of `h` (duplicates counted).
pub open spec fn count_adjacent(stones: Seq<Hex>, h: Hex) -> int
    decreases stones.len(),
{
    if stones.len() == 0 {
        0
    } else {
        count_adjacent(stones.drop_last(), h) + (if adjacent(stones.last(), h) {
            1int
        } else {
            0int
        })
    }
}

/// The depth-first walk of the ring detector. From the current cell it steps
/// in direction `d`; reaching the target closes the walk, and a cell of the
/// group continues it in the same direction or turned one step clockwise or
/// counter-clockwise. `fuel` bounds the depth of the walk.
pub open spec fn ring_search(
    stones: Seq<Hex>,
    cx: int,
    cy: int,
    d: int,
    tx: int,
    ty: int,
    fuel: nat,
) -> bool
    decreases fuel,
{
    if fuel == 0 {
        false
    } else {
        let nx = cx + dir_dx(d);
        let ny = cy + dir_dy(d);
        ||| (nx == tx && ny == ty)
        ||| (stones_contain(stones, nx, ny) && {
            ||| ring_search(stones, nx, ny, (d + 1) % 6, tx, ty, (fuel - 1) as nat)
            ||| ring_search(stones, nx, ny, d, tx, ty, (fuel - 1) as nat)
            ||| ring_search(stones, nx, ny, (d + 5) % 6, tx, ty, (fuel - 1) as nat)
        })
    }
}

/// Whether adding `last` closed a ring: the group holds at least six stones,
/// `last` touches at least two of them, and some walk of at most group-size
/// steps, started in one of the four primary directions and turning at most
/// sixty degrees per step, leads back to `last`.
pub open spec fn has_ring(stones: Seq<Hex>, last: Hex) -> bool {
    &&& stones.len() >= 6
    &&& count_adjacent(stones, last) >= 2
    &&& exists|d: int|
        0 <= d < 4 && ring_search(
            stones,
            last.x as int,
            last.y as int,
            d,
            last.x as int,
            last.y as int,
            stones.len(),
        )
}

/// Whether some stone of the list sits on board edge `bi`.
pub open spec fn edge_touched(stones: Seq<Hex>, radius: int, bi: int) -> bool {
    exists|si: int|
        0 <= si < stones.len() && #[trigger] spec_classify(stones[si], radius) == CellKind::Edge(
            bi as u8,
        )
}

/// Whether some stone of the list sits on board corner `bi`.
pub open spec fn corner_touched(stones: Seq<Hex>, radius: int, bi: int) -> bool {
    exists|si: int|
        0 <= si < stones.len() && #[trigger] spec_classify(stones[si], radius) == CellKind::Corner(
            bi as u8,
        )
}

/// The masks of a group say no more and no less than its stones: a bit is
/// set exactly when some stone of the group sits on that edge or corner.
pub open spec fn group_masks_match(g: Group, radius: int) -> bool {
    &&& forall|bi: int|
        0 <= bi < 6 ==> #[trigger] bit_set(g.edge_mask(), bi) == edge_touched(
            g.stones(),
            radius,
            bi,
        )
    &&& forall|bi: int|
        0 <= bi < 6 ==> #[trigger] bit_set(g.corner_mask(), bi) == corner_touched(
            g.stones(),
            radius,
            bi,
        )
}

/// A fresh group's masks match its (empty) stones.
pub proof fn lemma_group_masks_new(g: Group, radius: int)
    requires
        g.edge_mask() == 0,
        g.corner_mask() == 0,
        g.stones() == Seq::<Hex>::empty(),
    ensures
        group_masks_match(g, radius),
{
    assert(forall|sh: u8| sh < 8 ==> (0u8 >> sh) & 1 == 0) by (bit_vector);
}

/// Folding two matching groups gives a matching group: the union of the
/// masks says exactly what the two stone lists say together.
pub proof fn lemma_group_masks_merge(a: Group, b: Group, m: Group, radius: int)
    requires
        group_masks_match(a, radius),
        group_masks_match(b, radius),
        m.edge_mask() == a.edge_mask() | b.edge_mask(),
        m.corner_mask() == a.corner_mask() | b.corner_mask(),
        m.stones() == a.stones() + b.stones(),
    ensures
        group_masks_match(m, radius),
{
    assert(forall|m1: u8, m2: u8, sh: u8|
        sh < 8 ==> ((((m1 | m2) >> sh) & 1 == 1) == (((m1 >> sh) & 1 == 1) || ((m2 >> sh) & 1
            == 1)))) by (bit_vector);
    assert forall|bi: int| 0 <= bi < 6 implies (bit_set(m.edge_mask(), bi) == edge_touched(
        m.stones(),
        radius,
        bi,
    ) && bit_set(m.corner_mask(), bi) == corner_touched(m.stones(), radius, bi)) by {
        let na = a.stones().len() as int;
        assert(forall|si: int| 0 <= si < na ==> m.stones()[si] == a.stones()[si]);
        assert(forall|si: int|
            0 <= si < b.stones().len() ==> m.stones()[na + si] == b.stones()[si]);
        assert(bit_set(a.edge_mask(), bi) == edge_touched(a.stones(), radius, bi));
        assert(bit_set(b.edge_mask(), bi) == edge_touched(b.stones(), radius, bi));
        assert(bit_set(a.corner_mask(), bi) == corner_touched(a.stones(), radius, bi));
        assert(bit_set(b.corner_mask(), bi) == corner_touched(b.stones(), radius, bi));
        assert(bit_set(m.edge_mask(), bi) == (bit_set(a.edge_mask(), bi) || bit_set(
            b.edge_mask(),
            bi,
        )));
        assert(bit_set(m.corner_mask(), bi) == (bit_set(a.corner_mask(), bi) || bit_set(
            b.corner_mask(),
            bi,
        )));
        if edge_touched(a.stones(), radius, bi) {
            let si = choose|si: int|
                0 <= si < a.stones().len() && #[trigger] spec_classify(a.stones()[si], radius)
                    == CellKind::Edge(bi as u8);
            assert(spec_classify(m.stones()[si], radius) == CellKind::Edge(bi as u8));
        }
        if edge_touched(b.stones(), radius, bi) {
            let si = choose|si: int|
                0 <= si < b.stones().len() && #[trigger] spec_classify(b.stones()[si], radius)
                    == CellKind::Edge(bi as u8);
            assert(spec_classify(m.stones()[na + si], radius) == CellKind::Edge(bi as u8));
        }
        if corner_touched(a.stones(), radius, bi) {
            let si = choose|si: int|
                0 <= si < a.stones().len() && #[trigger] spec_classify(a.stones()[si], radius)
                    == CellKind::Corner(bi as u8);
            assert(spec_classify(m.stones()[si], radius) == CellKind::Corner(bi as u8));
        }
        if corner_touched(b.stones(), radius, bi) {
            let si = choose|si: int|
                0 <= si < b.stones().len() && #[trigger] spec_classify(b.stones()[si], radius)
                    == CellKind::Corner(bi as u8);
            assert(spec_classify(m.stones()[na + si], radius) == CellKind::Corner(bi as u8));
        }
        if edge_touched(m.stones(), radius, bi) {
            let si = choose|si: int|
                0 <= si < m.stones().len() && #[trigger] spec_classify(m.stones()[si], radius)
                    == CellKind::Edge(bi as u8);
            if si < na {
                assert(spec_classify(a.stones()[si], radius) == CellKind::Edge(bi as u8));
            } else {
                assert(spec_classify(b.stones()[si - na], radius) == CellKind::Edge(bi as u8));
            }
        }
        if corner_touched(m.stones(), radius, bi) {
            let si = choose|si: int|
                0 <= si < m.stones().len() && #[trigger] spec_classify(m.stones()[si], radius)
                    == CellKind::Corner(bi as u8);
            if si < na {
                assert(spec_classify(a.stones()[si], radius) == CellKind::Corner(bi as u8));
            } else {
                assert(spec_classify(b.stones()[si - na], radius) == CellKind::Corner(bi as u8));
            }
        }
    }
}

/// Adding a stone and its classification bit keeps the masks matching.
pub proof fn lemma_group_masks_add_stone(g: Group, g2: Group, hex: Hex, radius: int)
    requires
        group_masks_match(g, radius),
        g2.stones() == g.stones().push(hex),
        g2.edge_mask() == (match spec_classify(hex, radius) {
            CellKind::Edge(i) => g.edge_mask() | mask_bit(i as int),
            _ => g.edge_mask(),
        }),
        g2.corner_mask() == (match spec_classify(hex, radius) {
            CellKind::Corner(i) => g.corner_mask() | mask_bit(i as int),
            _ => g.corner_mask(),
        }),
    ensures
        group_masks_match(g2, radius),
{
    let n = g.stones().len() as int;
    assert(forall|si: int| 0 <= si < n ==> g2.stones()[si] == g.stones()[si]);
    assert(g2.stones()[n] == hex);
    assert(forall|m1: u8, i: u8, sh: u8|
        i < 6 && sh < 8 ==> ((((m1 | (1u8 << i)) >> sh) & 1 == 1) == (((m1 >> sh) & 1 == 1) || sh
            == i))) by (bit_vector);
    assert(forall|i: int| 0 <= i < 6 ==> mask_bit(i) == 1u8 << (i as u8)) by {
        assert(1u8 << 0u8 == 1 && 1u8 << 1u8 == 2 && 1u8 << 2u8 == 4 && 1u8 << 3u8 == 8 && 1u8
            << 4u8 == 16 && 1u8 << 5u8 == 32) by (bit_vector);
    }
    assert forall|bi: int| 0 <= bi < 6 implies (bit_set(g2.edge_mask(), bi) == edge_touched(
        g2.stones(),
        radius,
        bi,
    ) && bit_set(g2.corner_mask(), bi) == corner_touched(g2.stones(), radius, bi)) by {
        assert(bit_set(g.edge_mask(), bi) == edge_touched(g.stones(), radius, bi));
        assert(bit_set(g.corner_mask(), bi) == corner_touched(g.stones(), radius, bi));
        match spec_classify(hex, radius) {
            CellKind::Edge(i) => {
                assert(bit_set(g2.edge_mask(), bi) == (bit_set(g.edge_mask(), bi) || bi
                    == i as int));
                assert(g2.corner_mask() == g.corner_mask());
            },
            CellKind::Corner(i) => {
                assert(bit_set(g2.corner_mask(), bi) == (bit_set(g.corner_mask(), bi) || bi
                    == i as int));
                assert(g2.edge_mask() == g.edge_mask());
            },
            CellKind::Interior => {},
        }
        if edge_touched(g.stones(), radius, bi) {
            let si = choose|si: int|
                0 <= si < g.stones().len() && #[trigger] spec_classify(g.stones()[si], radius)
                    == CellKind::Edge(bi as u8);
            assert(spec_classify(g2.stones()[si], radius) == CellKind::Edge(bi as u8));
        }
        if corner_touched(g.stones(), radius, bi) {
            let si = choose|si: int|
                0 <= si < g.stones().len() && #[trigger] spec_classify(g.stones()[si], radius)
                    == CellKind::Corner(bi as u8);
            assert(spec_classify(g2.stones()[si], radius) == CellKind::Corner(bi as u8));
        }
        if edge_touched(g2.stones(), radius, bi) {
            let si = choose|si: int|
                0 <= si < g2.stones().len() && #[trigger] spec_classify(g2.stones()[si], radius)
                    == CellKind::Edge(bi as u8);
            if si < n {
                assert(spec_classify(g.stones()[si], radius) == CellKind::Edge(bi as u8));
            } else {
                assert(spec_classify(hex, radius) == CellKind::Edge(bi as u8));
            }
        }
        if corner_touched(g2.stones(), radius, bi) {
            let si = choose|si: int|
                0 <= si < g2.stones().len() && #[trigger] spec_classify(g2.stones()[si], radius)
                    == CellKind::Corner(bi as u8);
            if si < n {
                assert(spec_classify(g.stones()[si], radius) == CellKind::Corner(bi as u8));
            } else {
                assert(spec_classify(hex, radius) == CellKind::Corner(bi as u8));
            }
        }
    }
}

/// A group: the stones of one connected same-player component, with masks
/// of the board edges and corners the component touches. Bits `0..6` of the
/// masks correspond to the classification indices of the cells.
#[derive(Clone, Debug)]
pub struct Group {
    edges: u8,
    corners: u8,
    stones: Vec<Hex>,
}

impl Group {
    /// The mask of board edges this group touches.
    pub closed spec fn edge_mask(self) -> u8 {
        self.edges
    }

    /// The mask of board corners this group touches.
    pub closed spec fn corner_mask(self) -> u8 {
        self.corners
    }

    /// The stones of the group, in insertion order (merged groups append
    /// the absorbed group's stones).
    pub closed spec fn stones(self) -> Seq<Hex> {
        self.stones@
    }

    /// Only the six classification bits are ever set in the masks.
    pub open spec fn wf(self) -> bool {
        self.edge_mask() < 64 && self.corner_mask() < 64
    }

    /// A fresh group: no stones, no edges, no corners.
    pub fn new() -> (r: Self)
        ensures
            r.wf(),
            r.edge_mask() == 0,
            r.corner_mask() == 0,
            r.stones() == Seq::<Hex>::empty(),
    {
        Group { edges: 0, corners: 0, stones: Vec::new() }
    }

    /// Fold another group into this one: union the masks and append the
    /// other group's stones.
    pub fn merge(&mut self, other: &Self)
        requires
            old(self).wf(),
            other.wf(),
        ensures
            final(self).wf(),
            final(self).edge_mask() == old(self).edge_mask() | other.edge_mask(),
            final(self).corner_mask() == old(self).corner_mask() | other.corner_mask(),
            final(self).stones() == old(self).stones() + other.stones(),
    {
        proof {
            let a = self.edges;
            let b = other.edges;
            assert(a < 64 && b < 64 ==> (a | b) < 64) by (bit_vector);
            let c = self.corners;
            let d = other.corners;
            assert(c < 64 && d < 64 ==> (c | d) < 64) by (bit_vector);
        }
        self.edges = self.edges | other.edges;
        self.corners = self.corners | other.corners;
        let mut i: usize = 0;
        while i < other.stones.len()
            invariant
                i <= other.stones.len(),
                self.stones@ == old(self).stones@ + other.stones@.subrange(0, i as int),
                self.edges == old(self).edges | other.edges,
                self.corners == old(self).corners | other.corners,
            decreases other.stones.len() - i,
        {
            self.stones.push(other.stones[i]);
            proof {
                assert(self.stones@ == old(self).stones@ + other.stones@.subrange(
                    0,
                    i as int + 1,
                ));
            }
            i = i + 1;
        }
        proof {
            assert(other.stones@.subrange(0, other.stones@.len() as int) == other.stones@);
        }
    }

    /// Append a stone to the group.
    pub fn add_hex(&mut self, hex: Hex)
        requires
            old(self).wf(),
        ensures
            final(self).wf(),
            final(self).stones() == old(self).stones().push(hex),
            final(self).edge_mask() == old(self).edge_mask(),
            final(self).corner_mask() == old(self).corner_mask(),
    {
        self.stones.push(hex);
    }

    /// Record that the group touches board corner `index`.
    pub fn add_corner(&mut self, index: usize)
        requires
            old(self).wf(),
            index < 6,
        ensures
            final(self).wf(),
            final(self).corner_mask() == old(self).corner_mask() | mask_bit(index as int),
            final(self).edge_mask() == old(self).edge_mask(),
            final(self).stones() == old(self).stones(),
    {
        let bit: u8 = if index == 0 {
            1
        } else if index == 1 {
            2
        } else if index == 2 {
            4
        } else if index == 3 {
            8
        } else if index == 4 {
            16
        } else {
            32
        };
        proof {
            let a = self.corners;
            assert(a < 64 && bit < 64 ==> (a | bit) < 64) by (bit_vector);
        }
        self.corners = self.corners | bit;
    }

    /// Record that the group touches board edge `index`.
    pub fn add_edge(&mut self, index: usize)
        requires
            old(self).wf(),
            index < 6,
        ensures
            final(self).wf(),
            final(self).edge_mask() == old(self).edge_mask() | mask_bit(index as int),
            final(self).corner_mask() == old(self).corner_mask(),
            final(self).stones() == old(self).stones(),
    {
        let bit: u8 = if index == 0 {
            1
        } else if index == 1 {
            2
        } else if index == 2 {
            4
        } else if index == 3 {
            8
        } else if index == 4 {
            16
        } else {
            32
        };
        proof {
            let a = self.edges;
            assert(a < 64 && bit < 64 ==> (a | bit) < 64) by (bit_vector);
        }
        self.edges = self.edges | bit;
    }

    /// Whether the group connects at least two board corners.
    pub fn check_bridge(&self) -> (r: bool)
        ensures
            r == (mask_count(self.corner_mask()) >= 2),
    {
        count_mask_bits(self.corners) >= 2
    }

    /// Whether the group connects at least three board edges.
    pub fn check_fork(&self) -> (r: bool)
        ensures
            r == (mask_count(self.edge_mask()) >= 3),
    {
        count_mask_bits(self.edges) >= 3
    }

    /// Whether the most recently added stone closed a ring.
    pub fn check_ring(&self) -> (r: bool)
        ensures
            r == (self.stones().len() > 0 && has_ring(self.stones(), self.stones().last())),
    {
        let n = self.stones.len();
        if n == 0 {
            return false;
        }
        let last = self.stones[n - 1];
        if n < 6 {
            return false;
        }
        // count the stones already touching the new one
        let mut cnt: usize = 0;
        let mut i: usize = 0;
        while i < n
            invariant
                i <= n,
                n == self.stones@.len(),
                cnt <= i,
                cnt == count_adjacent(self.stones@.subrange(0, i as int), last),
            decreases n - i,
        {
            proof {
                assert(self.stones@.subrange(0, i as int + 1).drop_last() == self.stones@.subrange(
                    0,
                    i as int,
                ));
            }
            if is_adjacent(self.stones[i], last) {
                cnt = cnt + 1;
            }
            i = i + 1;
        }
        proof {
            assert(self.stones@.subrange(0, n as int) == self.stones@);
        }
        if cnt < 2 {
            return false;
        }
        // walk out of the new stone in each of the four primary directions
        let mut d: usize = 0;
        while d < 4
            invariant
                d <= 4,
                n == self.stones@.len(),
                n >= 6,
                last == self.stones@.last(),
                count_adjacent(self.stones@, last) >= 2,
                forall|e: int|
                    0 <= e < d ==> !ring_search(
                        self.stones@,
                        last.x as int,
                        last.y as int,
                        e,
                        last.x as int,
                        last.y as int,
                        n as nat,
                    ),
            decreases 4 - d,
        {
            if search_dir(&self.stones, last.x as i128, last.y as i128, d, last.x as i128,
                last.y as i128, n) {
                return true;
            }
            d = d + 1;
        }
        false
    }

    /// Append a stone and report whether it closed a ring.
    pub fn add_hex_and_check_ring(&mut self, hex: Hex) -> (r: bool)
        requires
            old(self).wf(),
        ensures
            final(self).wf(),
            final(self).stones() == old(self).stones().push(hex),
            final(self).edge_mask() == old(self).edge_mask(),
            final(self).corner_mask() == old(self).corner_mask(),
            r == has_ring(final(self).stones(), hex),
    {
        self.add_hex(hex);
        self.check_ring()
    }
}

/// Whether `b` is one of the six neighbors of `a`.
pub fn is_adjacent(a: Hex, b: Hex) -> (r: bool)
    ensures
        r == adjacent(a, b),
{
    let dx: i64 = b.x as i64 - a.x as i64;
    let dy: i64 = b.y as i64 - a.y as i64;
    let mut d: usize = 0;
    while d < 6
        invariant
            d <= 6,
            dx == b.x as int - a.x as int,
            dy == b.y as int - a.y as int,
            forall|e: int| 0 <= e < d ==> !(dx == dir_dx(e) && dy == dir_dy(e)),
        decreases 6 - d,
    {
        let o = dir_offset(d);
        if dx == o.0 as i64 && dy == o.1 as i64 {
            return true;
        }
        d = d + 1;
    }
    false
}

/// Whether some stone of the list has exactly the coordinates `(x, y)`.
fn contains_coord(stones: &Vec<Hex>, x: i128, y: i128) -> (r: bool)
    ensures
        r == stones_contain(stones@, x as int, y as int),
{
    let mut i: usize = 0;
    while i < stones.len()
        invariant
            i <= stones@.len(),
            forall|k: int|
                0 <= k < i ==> !(stones@[k].x as int == x as int && stones@[k].y as int
                    == y as int),
        decreases stones@.len() - i,
    {
        if stones[i].x as i128 == x && stones[i].y as i128 == y {
            return true;
        }
        i = i + 1;
    }
    false
}

/// The depth-first walk of the ring detector; see `ring_search`.
fn search_dir(stones: &Vec<Hex>, cx: i128, cy: i128, d: usize, tx: i128, ty: i128, fuel: usize) -> (
    r: bool)
    requires
        d < 6,
        (cx - (fuel as i128)) > -0x1_0000_0000_0000_0000_0000_0000,
        (cx + (fuel as i128)) < 0x1_0000_0000_0000_0000_0000_0000,
        (cy - (fuel as i128)) > -0x1_0000_0000_0000_0000_0000_0000,
        (cy + (fuel as i128)) < 0x1_0000_0000_0000_0000_0000_0000,
    ensures
        r == ring_search(stones@, cx as int, cy as int, d as int, tx as int, ty as int,
            fuel as nat),
    decreases fuel,
{
    if fuel == 0 {
        return false;
    }
    let o = dir_offset(d);
    let nx = cx + o.0 as i128;
    let ny = cy + o.1 as i128;
    if nx == tx && ny == ty {
        return true;
    }
    if !contains_coord(stones, nx, ny) {
        return false;
    }
    let cw = if d == 5 {
        0
    } else {
        d + 1
    };
    let ccw = if d == 0 {
        5
    } else {
        d - 1
    };
    proof {
        assert(cw as int == (d as int + 1) % 6);
        assert(ccw as int == (d as int + 5) % 6);
    }
    search_dir(stones, nx, ny, cw, tx, ty, fuel - 1) || search_dir(stones, nx, ny, d, tx, ty, fuel
        - 1) || search_dir(stones, nx, ny, ccw, tx, ty, fuel - 1)
}

} // verus!
