//! The board: the cell table, the turn state, and the game-state machine
//! that drives the group engine on every move.

use vstd::prelude::*;
use vstd::pervasive::VecAdditionalExecFns;
use crate::arena::{group_at, root_of, slots_wf, GroupArena, GroupSlot};
use crate::game_data::{GameState, GroupId, MoveError, Player, Stone, WinCon};
use crate::grid::{
    cell_count, cell_index, coord_x, coord_y, dim, idx_in_hex, in_hex, index_of,
    lemma_cell_count_bounds, lemma_coord_index, lemma_exists_empty, lemma_hex_count_total,
    lemma_index_coord, lemma_index_injective, lemma_occ_count_fill, lemma_occ_count_replace,
    lemma_occ_le_hex, occ_count, hex_count, spec_cell_count,
};
use crate::group::{
    bit_set, group_masks_match, has_ring, lemma_group_masks_add_stone, lemma_group_masks_merge,
    lemma_group_masks_new, mask_bit, mask_count,
};
use crate::hex::{
    adjacent, dir_dx, dir_dy, dir_offset, in_bounds, radius_ok, spec_classify, CellKind, Hex,
};

verus! {

/// Where a slot's representative ends up after one move's merges: every
/// slot that resolved to one of the merged representatives resolves to the
/// survivor, every other slot as before.
pub open spec fn root_image(s0: Seq<GroupSlot>, roots: Seq<GroupId>, surv: int, k: int) -> int {
    if exists|j: int| 0 <= j < roots.len() && root_of(s0, k) == ((#[trigger] roots[j]).0 as int) {
        surv
    } else {
        root_of(s0, k)
    }
}

/// A Havannah board of radius `RADIUS`: a map from every board cell to its
/// occupant, the player to move, the game state, and the group engine that
/// tracks connected components of stones.
#[derive(Clone)]
pub struct Board<const RADIUS: usize> {
    cells: Vec<Option<Stone>>,
    to_move: Player,
    game_state: GameState,
    groups: GroupArena,
    turn: usize,
}

impl<const RADIUS: usize> Board<RADIUS> {
    /// The board radius, for specifications.
    pub open spec fn spec_radius() -> int {
        RADIUS as int
    }

    /// The cell table, for specifications.
    pub closed spec fn cells_seq(self) -> Seq<Option<Stone>> {
        self.cells@
    }

    /// The group engine's slot table, for specifications.
    pub closed spec fn slots(self) -> Seq<GroupSlot> {
        self.groups.slots()
    }

    /// The current game state.
    pub closed spec fn state(self) -> GameState {
        self.game_state
    }

    /// The player who moves next.
    pub closed spec fn next_player(self) -> Player {
        self.to_move
    }

    /// How many completed, non-winning moves have been played.
    pub closed spec fn turns_taken(self) -> int {
        self.turn as int
    }

    /// How many cells hold a stone.
    pub open spec fn occupied(self) -> int {
        occ_count(self.cells_seq(), self.cells_seq().len() as int)
    }

    /// The stone (if any) on an in-bounds cell.
    pub closed spec fn stone_at(self, h: Hex) -> Option<Stone>
        recommends
            h.in_bounds(RADIUS as int),
    {
        self.cells@[index_of(RADIUS as int, h.x as int, h.y as int)]
    }

    /// The representative group slot the stone on `h` currently resolves
    /// to.
    pub open spec fn root_at(self, h: Hex) -> int
        recommends
            h.in_bounds(RADIUS as int),
            self.stone_at(h) is Some,
    {
        root_of(self.slots(), self.stone_at(h)->Some_0.group_id.0 as int)
    }

    /// The owner (if any) of the stone on an in-bounds cell.
    pub open spec fn owner_at(self, h: Hex) -> Option<Player> {
        match self.stone_at(h) {
            Some(s) => Some(s.owner),
            None => None,
        }
    }

    /// The union-find classes respect the board: two adjacent stones of
    /// one player always resolve to the same group.
    pub open spec fn groups_connected(self) -> bool {
        forall|h1: Hex, h2: Hex|
            #![trigger adjacent(h1, h2), self.owner_at(h1), self.owner_at(h2)]
            h1.in_bounds(RADIUS as int) && h2.in_bounds(RADIUS as int) && adjacent(h1, h2)
                && self.stone_at(h1) is Some && self.stone_at(h2) is Some && self.owner_at(h1)
                == self.owner_at(h2) ==> self.root_at(h1) == self.root_at(h2)
    }

    /// Every live group's masks say exactly which board edges and corners
    /// its stones touch.
    pub open spec fn masks_match(self) -> bool {
        forall|rt: int|
            0 <= rt < self.slots().len() && (#[trigger] self.slots()[rt]) is Live
                ==> group_masks_match(group_at(self.slots(), rt), RADIUS as int)
    }

    /// Every stone on the board appears in the stone list of the group its
    /// cell resolves to: the win checks see the whole class.
    pub open spec fn stones_complete(self) -> bool {
        forall|h: Hex|
            h.in_bounds(RADIUS as int) && #[trigger] self.stone_at(h) is Some ==> group_at(
                self.slots(),
                self.root_at(h),
            ).stones().contains(h)
    }

    /// Every entry of a live group's stone list is a stone on the board
    /// whose cell resolves to that group: the lists hold nothing foreign.
    pub open spec fn stones_sound(self) -> bool {
        forall|rt: int, si: int|
            0 <= rt < self.slots().len() && (#[trigger] self.slots()[rt]) is Live && 0 <= si
                < group_at(self.slots(), rt).stones().len() ==> {
                let s = #[trigger] group_at(self.slots(), rt).stones()[si];
                &&& s.in_bounds(RADIUS as int)
                &&& self.stone_at(s) is Some
                &&& self.root_at(s) == rt
            }
    }

    /// The board invariant: the table has the right size, stones sit only
    /// on board cells, every stone's group handle points into the engine,
    /// the engine is well formed, the groups respect adjacency, and the
    /// turn counter agrees with the occupancy and the game state.
    pub closed spec fn wf(self) -> bool {
        let r = RADIUS as int;
        &&& radius_ok(r)
        &&& self.cells@.len() == dim(r) * dim(r)
        &&& slots_wf(self.groups.slots())
        &&& forall|i: int|
            0 <= i < self.cells@.len() && #[trigger] self.cells@[i] is Some ==> idx_in_hex(r, i)
        &&& forall|i: int|
            0 <= i < self.cells@.len() && #[trigger] self.cells@[i] is Some
                ==> (self.cells@[i]->Some_0.group_id.0 as int) < self.groups.slots().len()
        &&& self.groups_connected()
        &&& self.masks_match()
        &&& self.stones_complete()
        &&& self.stones_sound()
        &&& match self.game_state {
            GameState::Ongoing => self.occupied() == self.turn as int && (self.turn as int)
                < spec_cell_count(r),
            GameState::Draw => self.occupied() == self.turn as int && self.turn as int
                == spec_cell_count(r),
            GameState::Win(_, _) => self.occupied() == self.turn as int + 1 && self.turn as int + 1
                <= spec_cell_count(r),
        }
    }

    /// A fresh board: every cell empty, Black to move, game ongoing.
    pub fn new() -> (r: Self)
        requires
            radius_ok(RADIUS as int),
        ensures
            r.wf(),
            r.state() == GameState::Ongoing,
            r.next_player() == Player::Black,
            r.turns_taken() == 0,
            r.occupied() == 0,
            forall|h: Hex| h.in_bounds(RADIUS as int) ==> r.owner_at(h) is None,
    {
        let d: usize = 2 * RADIUS + 1;
        proof {
            assert(dim(RADIUS as int) * dim(RADIUS as int) <= 400040001) by (nonlinear_arith)
                requires
                    1 <= RADIUS as int <= 10000,
            ;
        }
        let total: usize = d * d;
        let mut cells: Vec<Option<Stone>> = Vec::new();
        let mut i: usize = 0;
        while i < total
            invariant
                i <= total,
                cells@.len() == i as int,
                forall|k: int| 0 <= k < i ==> cells@[k] is None,
            decreases total - i,
        {
            cells.push(None);
            i = i + 1;
        }
        proof {
            lemma_occ_none(cells@, cells@.len() as int);
            assert(spec_cell_count(RADIUS as int) > 0) by (nonlinear_arith)
                requires
                    RADIUS as int >= 1,
            ;
        }
        let board = Board {
            cells,
            to_move: Player::Black,
            game_state: GameState::Ongoing,
            groups: GroupArena::new(),
            turn: 0,
        };
        proof {
            assert forall|h: Hex| h.in_bounds(RADIUS as int) implies board.owner_at(h) is None by {
                lemma_index_coord(RADIUS as int, h.x as int, h.y as int);
            }
            assert forall|h: Hex|
                h.in_bounds(RADIUS as int) && #[trigger] board.stone_at(h) is Some implies group_at(
                board.slots(),
                board.root_at(h),
            ).stones().contains(h) by {
                lemma_index_coord(RADIUS as int, h.x as int, h.y as int);
            }
        }
        board
    }

    /// The board's radius.
    pub fn radius(&self) -> (r: usize)
        ensures
            r as int == Self::spec_radius(),
    {
        RADIUS
    }

    /// Where the game stands.
    pub fn get_game_state(&self) -> (r: GameState)
        ensures
            r == self.state(),
    {
        self.game_state
    }

    /// How many completed, non-winning moves have been played.
    pub fn turn_count(&self) -> (r: usize)
        ensures
            r as int == self.turns_taken(),
    {
        self.turn
    }

    /// The neighbor of `input_hex` in direction `d`, as a cell.
    pub open spec fn nbr_hex(input_hex: Hex, d: int) -> Hex {
        Hex {
            x: (input_hex.x as int + dir_dx(d)) as i32,
            y: (input_hex.y as int + dir_dy(d)) as i32,
        }
    }

    /// Whether the mover of `pre` has a stone on the neighbor of
    /// `input_hex` in direction `d`.
    pub open spec fn friendly_neighbor(pre: Self, input_hex: Hex, d: int) -> bool {
        let x = input_hex.x as int + dir_dx(d);
        let y = input_hex.y as int + dir_dy(d);
        &&& in_hex(RADIUS as int, x, y)
        &&& pre.owner_at(Hex { x: x as i32, y: y as i32 }) == Some(pre.next_player())
    }

    /// Everything one move does, relating the board before (`pre`) and
    /// after (`post`): exactly which moves are rejected with which error
    /// and without effect; and for an accepted move, that the played cell
    /// now holds the mover's stone, that no other cell changed occupancy
    /// or owner, how the turn counter, the player to move and the game
    /// state change, and that the resulting game state is decided by ring,
    /// bridge and fork of the mover's updated group, in that priority
    /// order, with the draw on the last cell after them.
    pub open spec fn move_post(
        pre: Self,
        post: Self,
        input_hex: Hex,
        r: Result<GameState, MoveError>,
    ) -> bool {
        &&& (r is Err ==> post == pre)
        &&& (r == Result::<GameState, MoveError>::Err(MoveError::GameOver)) == (pre.state()
            != GameState::Ongoing)
        &&& (r == Result::<GameState, MoveError>::Err(MoveError::OutOfBounds)) == (pre.state()
            == GameState::Ongoing && !input_hex.in_bounds(RADIUS as int))
        &&& (r == Result::<GameState, MoveError>::Err(MoveError::CellOccupied)) == (pre.state()
            == GameState::Ongoing && input_hex.in_bounds(RADIUS as int) && pre.owner_at(input_hex)
            is Some)
        &&& (r is Ok) == (pre.state() == GameState::Ongoing && input_hex.in_bounds(RADIUS as int)
            && pre.owner_at(input_hex) is None)
        &&& (r is Ok ==> {
            &&& r->Ok_0 == post.state()
            &&& post.owner_at(input_hex) == Some(pre.next_player())
            &&& forall|h: Hex|
                h.in_bounds(RADIUS as int) && h != input_hex ==> post.owner_at(h) == pre.owner_at(
                    h,
                )
            &&& post.occupied() == pre.occupied() + 1
            &&& post.stone_at(input_hex) is Some
            &&& ({
                let gid = post.stone_at(input_hex)->Some_0.group_id;
                let s = post.slots();
                &&& (gid.0 as int) < s.len()
                &&& s[gid.0 as int] is Live
                &&& root_of(s, gid.0 as int) == gid.0 as int
                &&& ({
                    let g = group_at(s, gid.0 as int);
                    &&& g.stones().len() > 0
                    &&& g.stones().last() == input_hex
                    &&& post.state() == (if has_ring(g.stones(), input_hex) {
                        GameState::Win(pre.next_player(), WinCon::Ring)
                    } else if mask_count(g.corner_mask()) >= 2 {
                        GameState::Win(pre.next_player(), WinCon::Bridge)
                    } else if mask_count(g.edge_mask()) >= 3 {
                        GameState::Win(pre.next_player(), WinCon::Fork)
                    } else if pre.turns_taken() + 1 == spec_cell_count(RADIUS as int) {
                        GameState::Draw
                    } else {
                        GameState::Ongoing
                    })
                    &&& (match spec_classify(input_hex, RADIUS as int) {
                        CellKind::Edge(i) => bit_set(g.edge_mask(), i as int),
                        CellKind::Corner(i) => bit_set(g.corner_mask(), i as int),
                        CellKind::Interior => true,
                    })
                })
            })
            &&& (post.state() is Win ==> post.turns_taken() == pre.turns_taken()
                && post.next_player() == pre.next_player())
            &&& (post.state() == GameState::Draw ==> post.turns_taken() == pre.turns_taken() + 1
                && post.next_player() == pre.next_player())
            &&& (post.state() == GameState::Ongoing ==> post.turns_taken() == pre.turns_taken() + 1
                && post.next_player() == pre.next_player().spec_flip())
            &&& ((forall|d: int| 0 <= d < 6 ==> !Self::friendly_neighbor(pre, input_hex, d)) ==> {
                let g = group_at(post.slots(), post.stone_at(input_hex)->Some_0.group_id.0 as int);
                &&& g.stones() == seq![input_hex]
                &&& g.edge_mask() == (match spec_classify(input_hex, RADIUS as int) {
                    CellKind::Edge(i) => mask_bit(i as int),
                    _ => 0u8,
                })
                &&& g.corner_mask() == (match spec_classify(input_hex, RADIUS as int) {
                    CellKind::Corner(i) => mask_bit(i as int),
                    _ => 0u8,
                })
            })
        })
    }

    /// Play a stone for the player to move. A coordinate off the board, an
    /// occupied cell or a finished game is rejected and leaves the board
    /// untouched. An accepted move places the stone, merges it with its
    /// friendly neighbor groups, and decides the game state: a ring, a
    /// bridge or a fork of the mover's updated group wins, in that priority
    /// order and without advancing the turn; otherwise the turn advances,
    /// the last cell forces a draw, and any other move passes play to the
    /// opponent.
    #[verifier::rlimit(100)]
    pub fn move_at_raw(&mut self, input_hex: Hex) -> (r: Result<GameState, MoveError>)
        requires
            old(self).wf(),
        ensures
            final(self).wf(),
            Self::move_post(*old(self), *final(self), input_hex, r),
    {
        match self.game_state {
            GameState::Ongoing => {},
            _ => {
                return Err(MoveError::GameOver);
            },
        }
        if !in_bounds(input_hex, RADIUS) {
            return Err(MoveError::OutOfBounds);
        }
        proof {
            lemma_index_coord(RADIUS as int, input_hex.x as int, input_hex.y as int);
            lemma_cell_count_bounds(RADIUS as int);
        }
        let idx = cell_index(input_hex, RADIUS);
        if self.cells[idx].is_some() {
            return Err(MoveError::CellOccupied);
        }
        let player = self.to_move;
        let ghost old_slots = self.groups.slots();
        let ghost old_cells = self.cells@;

        // collect the distinct groups among the friendly neighbor stones
        let mut roots: Vec<GroupId> = Vec::new();
        let mut d: usize = 0;
        while d < 6
            invariant
                d <= 6,
                *self == *old(self),
                self.wf(),
                input_hex.in_bounds(RADIUS as int),
                player == old(self).next_player(),
                forall|k: int|
                    0 <= k < roots@.len() ==> ((#[trigger] roots@[k]).0 as int)
                        < self.groups.slots().len() && self.groups.slots()[roots@[k].0 as int]
                        is Live,
                forall|k1: int, k2: int|
                    0 <= k1 < k2 < roots@.len() ==> roots@[k1] != roots@[k2],
                forall|e: int|
                    0 <= e < d && Self::friendly_neighbor(*old(self), input_hex, e)
                        ==> roots@.len() > 0,
                roots@.len() > 0 ==> exists|e: int|
                    0 <= e < d && Self::friendly_neighbor(*old(self), input_hex, e),
                forall|e: int|
                    0 <= e < d && #[trigger] Self::friendly_neighbor(*old(self), input_hex, e)
                        ==> exists|j: int|
                        0 <= j < roots@.len() && ((#[trigger] roots@[j]).0 as int) == old(
                            self,
                        ).root_at(Self::nbr_hex(input_hex, e)),
            decreases 6 - d,
        {
            let ghost roots0 = roots@;
            match bounded_neighbor(input_hex, d, RADIUS) {
                Some(nh) => {
                    proof {
                        lemma_index_coord(RADIUS as int, nh.x as int, nh.y as int);
                    }
                    let nidx = cell_index(nh, RADIUS);
                    let c: Option<Stone> = self.cells[nidx];
                    match c {
                        Some(s) => {
                            if s.owner == player {
                                proof {
                                    assert(Self::friendly_neighbor(
                                        *old(self),
                                        input_hex,
                                        d as int,
                                    ));
                                    assert(nh == Self::nbr_hex(input_hex, d as int));
                                }
                                let root = self.groups.find(s.group_id);
                                proof {
                                    assert((root.0 as int) == old(self).root_at(nh));
                                }
                                let present = contains_id(&roots, root);
                                if !present {
                                    roots.push(root);
                                    proof {
                                        assert(roots@[roots@.len() - 1] == root);
                                    }
                                } else {
                                    proof {
                                        let k = choose|k: int|
                                            0 <= k < roots@.len() && roots@[k] == root;
                                        assert((roots@[k].0 as int) == old(self).root_at(nh));
                                    }
                                }
                                proof {
                                    assert(exists|j: int|
                                        0 <= j < roots@.len() && ((#[trigger] roots@[j]).0 as int)
                                            == old(self).root_at(
                                            Self::nbr_hex(input_hex, d as int),
                                        ));
                                }
                            } else {
                                proof {
                                    assert(!Self::friendly_neighbor(
                                        *old(self),
                                        input_hex,
                                        d as int,
                                    ));
                                }
                            }
                        },
                        None => {
                            proof {
                                assert(!Self::friendly_neighbor(*old(self), input_hex, d as int));
                            }
                        },
                    }
                },
                None => {
                    proof {
                        assert(!Self::friendly_neighbor(*old(self), input_hex, d as int));
                    }
                },
            }
            proof {
                assert forall|e: int|
                    0 <= e < d + 1 && #[trigger] Self::friendly_neighbor(
                        *old(self),
                        input_hex,
                        e,
                    ) implies exists|j: int|
                    0 <= j < roots@.len() && ((#[trigger] roots@[j]).0 as int) == old(
                        self,
                    ).root_at(Self::nbr_hex(input_hex, e)) by {
                    if e < d {
                        let j = choose|j: int|
                            0 <= j < roots0.len() && ((roots0[j]).0 as int) == old(self).root_at(
                                Self::nbr_hex(input_hex, e),
                            );
                        assert((roots@[j].0 as int) == old(self).root_at(
                            Self::nbr_hex(input_hex, e),
                        ));
                    }
                }
            }
            d = d + 1;
        }

        // allocate a fresh group, or merge the neighbors' groups into one
        let ghost no_friends = roots@.len() == 0;
        proof {
            assert(no_friends == (forall|e: int|
                0 <= e < 6 ==> !Self::friendly_neighbor(*old(self), input_hex, e)));
        }
        let survivor: GroupId = if roots.len() == 0 {
            self.groups.new_group()
        } else {
            let mut i: usize = 1;
            while i < roots.len()
                invariant
                    1 <= i <= roots@.len(),
                    slots_wf(self.groups.slots()),
                    self.groups.slots().len() == old_slots.len(),
                    radius_ok(RADIUS as int),
                    self.cells@ == old_cells,
                    old_cells.len() == dim(RADIUS as int) * dim(RADIUS as int),
                    self.to_move == old(self).to_move,
                    self.game_state == old(self).game_state,
                    self.turn == old(self).turn,
                    forall|k: int|
                        0 <= k < roots@.len() ==> ((#[trigger] roots@[k]).0 as int)
                            < old_slots.len() && old_slots[roots@[k].0 as int] is Live,
                    forall|k1: int, k2: int|
                        0 <= k1 < k2 < roots@.len() ==> roots@[k1] != roots@[k2],
                    forall|k: int|
                        i <= k < roots@.len() ==> self.groups.slots()[(#[trigger] roots@[k]).0
                            as int] == old_slots[roots@[k].0 as int],
                    ({
                        let m = root_of(self.groups.slots(), roots@[0].0 as int);
                        &&& 0 <= m < old_slots.len()
                        &&& self.groups.slots()[m] is Live
                        &&& forall|k: int| i <= k < roots@.len() ==> m != roots@[k].0 as int
                        &&& exists|j: int| 0 <= j < i && ((#[trigger] roots@[j]).0 as int) == m
                    }),
                    forall|k: int|
                        0 <= k < old_slots.len() ==> root_of(self.groups.slots(), k) == root_image(
                            old_slots,
                            roots@.subrange(0, i as int),
                            root_of(self.groups.slots(), roots@[0].0 as int),
                            k,
                        ),
                    forall|rt: int|
                        0 <= rt < self.groups.slots().len() && (#[trigger] self.groups.slots()[rt])
                            is Live ==> group_masks_match(
                            group_at(self.groups.slots(), rt),
                            RADIUS as int,
                        ),
                    self.stones_complete(),
                    self.stones_sound(),
                    forall|j: int|
                        0 <= j < self.cells@.len() && #[trigger] self.cells@[j] is Some ==> (
                        self.cells@[j]->Some_0.group_id.0 as int) < old_slots.len(),
                decreases roots@.len() - i,
            {
                let ghost b1 = *self;
                let ghost s1 = self.groups.slots();
                let ghost m = root_of(s1, roots@[0].0 as int);
                proof {
                    assert(root_of(s1, roots@[i as int].0 as int) == roots@[i as int].0 as int);
                    assert(root_of(s1, roots@[0].0 as int) == m);
                }
                self.groups.merge(roots[0], roots[i]);
                proof {
                    let s2 = self.groups.slots();
                    let ri = roots@[i as int].0 as int;
                    let m2 = root_of(s2, roots@[0].0 as int);
                    assert(m2 == (if m <= ri {
                        m
                    } else {
                        ri
                    }));
                    if m <= ri {
                        let jm = choose|j: int| 0 <= j < i && ((roots@[j]).0 as int) == m;
                        assert(0 <= jm < i + 1 && ((roots@[jm]).0 as int) == m2);
                    } else {
                        assert(((roots@[i as int]).0 as int) == m2);
                    }
                    let rr = if m <= ri {
                        m
                    } else {
                        ri
                    };
                    let oo = if m <= ri {
                        ri
                    } else {
                        m
                    };
                    assert forall|rt: int|
                        0 <= rt < s2.len() && (#[trigger] s2[rt]) is Live implies group_masks_match(
                        group_at(s2, rt),
                        RADIUS as int,
                    ) by {
                        if rt == rr {
                            lemma_group_masks_merge(
                                group_at(s1, rr),
                                group_at(s1, oo),
                                group_at(s2, rr),
                                RADIUS as int,
                            );
                        } else if rt != oo {
                            assert(s2[rt] == s1[rt]);
                        }
                    }
                    assert forall|h: Hex|
                        h.in_bounds(RADIUS as int) && #[trigger] self.stone_at(h)
                            is Some implies group_at(s2, self.root_at(h)).stones().contains(h) by {
                        let gid = self.stone_at(h)->Some_0.group_id.0 as int;
                        lemma_index_coord(RADIUS as int, h.x as int, h.y as int);
                        assert(self.cells@[index_of(RADIUS as int, h.x as int, h.y as int)]
                            is Some);
                        assert(b1.stone_at(h) == self.stone_at(h));
                        assert(b1.stones_complete());
                        let r1 = root_of(s1, gid);
                        assert(b1.root_at(h) == r1);
                        assert(group_at(s1, r1).stones().contains(h));
                        assert((gid as int) < old_slots.len());
                        crate::arena::lemma_root_live(s1, gid);
                        let a = group_at(s1, rr).stones();
                        let b = group_at(s1, oo).stones();
                        if r1 == rr || r1 == oo {
                            assert(root_of(s2, gid) == rr);
                            assert(group_at(s2, rr).stones() == a + b);
                            let si = choose|si: int|
                                0 <= si < group_at(s1, r1).stones().len() && group_at(
                                    s1,
                                    r1,
                                ).stones()[si] == h;
                            if r1 == rr {
                                assert((a + b)[si] == h);
                            } else {
                                assert((a + b)[a.len() + si] == h);
                            }
                            assert(group_at(s2, rr).stones().contains(h));
                        } else {
                            assert(root_of(s2, gid) == r1);
                            assert(s2[r1] == s1[r1]);
                        }
                    }
                    assert forall|rt: int, si: int|
                        0 <= rt < s2.len() && (#[trigger] s2[rt]) is Live && 0 <= si < group_at(
                            s2,
                            rt,
                        ).stones().len() implies {
                        let s = #[trigger] group_at(s2, rt).stones()[si];
                        &&& s.in_bounds(RADIUS as int)
                        &&& self.stone_at(s) is Some
                        &&& self.root_at(s) == rt
                    } by {
                        let a = group_at(s1, rr).stones();
                        let b = group_at(s1, oo).stones();
                        let s = group_at(s2, rt).stones()[si];
                        if rt == rr {
                            assert(group_at(s2, rr).stones() == a + b);
                            if si < a.len() {
                                assert(s == a[si]);
                                assert(b1.root_at(s) == rr);
                            } else {
                                assert(s == b[si - a.len()]);
                                assert(b1.root_at(s) == oo);
                            }
                        } else {
                            assert(s2[rt] == s1[rt]);
                            assert(b1.root_at(s) == rt);
                        }
                        assert(b1.stone_at(s) == self.stone_at(s));
                    }
                    assert forall|k: int| 0 <= k < old_slots.len() implies root_of(s2, k)
                        == root_image(old_slots, roots@.subrange(0, i as int + 1), m2, k) by {
                        let r0k = root_of(old_slots, k);
                        let sub_i = roots@.subrange(0, i as int);
                        let sub_i1 = roots@.subrange(0, i as int + 1);
                        assert(root_of(s1, k) == root_image(old_slots, sub_i, m, k));
                        assert(forall|j: int| 0 <= j <= i ==> sub_i1[j] == roots@[j]);
                        assert(forall|j: int| 0 <= j < i ==> sub_i[j] == roots@[j]);
                        if exists|j: int|
                            0 <= j < i + 1 && r0k == ((#[trigger] roots@[j]).0 as int) {
                            let j = choose|j: int| 0 <= j < i + 1 && r0k == ((roots@[j]).0 as int);
                            assert(r0k == (sub_i1[j].0 as int));
                            if j < i {
                                assert(root_image(old_slots, sub_i, m, k) == m);
                                assert(root_of(s1, k) == m);
                            } else {
                                assert(forall|j2: int|
                                    0 <= j2 < i ==> roots@[j2] != roots@[i as int]);
                                assert(!(exists|j2: int|
                                    0 <= j2 < i && r0k == ((#[trigger] sub_i[j2]).0 as int)));
                                assert(root_of(s1, k) == r0k);
                            }
                            assert(root_of(s2, k) == m2);
                            assert(root_image(old_slots, sub_i1, m2, k) == m2);
                        } else {
                            assert(forall|j: int| 0 <= j < i ==> r0k != ((roots@[j]).0 as int));
                            assert(!(exists|j2: int|
                                0 <= j2 < i && r0k == ((#[trigger] sub_i[j2]).0 as int)));
                            assert(root_of(s1, k) == r0k);
                            assert(r0k != m);
                            assert(r0k != ri);
                            assert(root_of(s2, k) == r0k);
                            assert(!(exists|j2: int|
                                0 <= j2 < i + 1 && r0k == ((#[trigger] sub_i1[j2]).0 as int)));
                        }
                    }
                }
                i = i + 1;
            }
            self.groups.find(roots[0])
        };
        let ghost mid_slots = self.groups.slots();
        proof {
            if !no_friends {
                assert(roots@.subrange(0, roots@.len() as int) =~= roots@);
            }
            assert forall|k: int| 0 <= k < old_slots.len() implies root_of(mid_slots, k)
                == root_image(old_slots, roots@, survivor.0 as int, k) by {
                if no_friends {
                    assert(!(exists|j: int|
                        0 <= j < roots@.len() && root_of(old_slots, k) == ((#[trigger] roots@[j]).0
                            as int)));
                }
            }
            assert(root_of(mid_slots, survivor.0 as int) == survivor.0 as int);
            assert(mid_slots[survivor.0 as int] is Live);
            assert forall|rt: int|
                0 <= rt < mid_slots.len() && (#[trigger] mid_slots[rt]) is Live
                    implies group_masks_match(group_at(mid_slots, rt), RADIUS as int) by {
                if no_friends {
                    if rt < old_slots.len() {
                        assert(mid_slots[rt] == old_slots[rt]);
                    } else {
                        lemma_group_masks_new(group_at(mid_slots, rt), RADIUS as int);
                    }
                }
            }
            assert forall|rt: int, si: int|
                0 <= rt < mid_slots.len() && (#[trigger] mid_slots[rt]) is Live && 0 <= si
                    < group_at(mid_slots, rt).stones().len() implies {
                let s = #[trigger] group_at(mid_slots, rt).stones()[si];
                &&& s.in_bounds(RADIUS as int)
                &&& self.stone_at(s) is Some
                &&& self.root_at(s) == rt
            } by {
                if no_friends {
                    assert(rt < old_slots.len() || group_at(mid_slots, rt).stones().len() == 0);
                    assert(mid_slots[rt] == old_slots[rt]);
                    let s = group_at(mid_slots, rt).stones()[si];
                    assert(old(self).stone_at(s) == self.stone_at(s));
                    assert(old(self).root_at(s) == rt);
                    let gid = self.stone_at(s)->Some_0.group_id.0 as int;
                    lemma_index_coord(RADIUS as int, s.x as int, s.y as int);
                    assert(old(self).cells_seq()[index_of(RADIUS as int, s.x as int, s.y as int)]
                        is Some);
                    assert(root_of(mid_slots, gid) == root_of(old_slots, gid));
                }
            }
            assert forall|h: Hex|
                h.in_bounds(RADIUS as int) && #[trigger] self.stone_at(h) is Some implies group_at(
                mid_slots,
                self.root_at(h),
            ).stones().contains(h) by {
                if no_friends {
                    let gid = self.stone_at(h)->Some_0.group_id.0 as int;
                    lemma_index_coord(RADIUS as int, h.x as int, h.y as int);
                    assert(old(self).cells_seq()[index_of(RADIUS as int, h.x as int, h.y as int)]
                        is Some);
                    assert(old(self).stone_at(h) == self.stone_at(h));
                    assert(old(self).root_at(h) == root_of(old_slots, gid));
                    assert(group_at(old_slots, root_of(old_slots, gid)).stones().contains(h));
                    assert((gid as int) < old_slots.len());
                    assert(root_of(mid_slots, gid) == root_of(old_slots, gid));
                    assert(mid_slots[root_of(old_slots, gid)] == old_slots[root_of(
                        old_slots,
                        gid,
                    )]) by {
                        crate::arena::lemma_root_live(old_slots, gid);
                    }
                }
            }
        }

        // place the stone
        let ghost placed_pre = *self;
        let stone = Stone { owner: player, group_id: survivor };
        self.cells.set(idx, Some(stone));
        proof {
            lemma_occ_count_fill(old_cells, idx as int, stone, old_cells.len() as int);
            assert forall|h: Hex|
                h.in_bounds(RADIUS as int) && h != input_hex && #[trigger] self.stone_at(h)
                    is Some implies ((self.stone_at(h)->Some_0.group_id.0 as int) < mid_slots.len()
                && group_at(
                mid_slots,
                root_of(mid_slots, self.stone_at(h)->Some_0.group_id.0 as int),
            ).stones().contains(h)) by {
                lemma_index_coord(RADIUS as int, h.x as int, h.y as int);
                if index_of(RADIUS as int, h.x as int, h.y as int) == idx as int {
                    lemma_index_injective(
                        RADIUS as int,
                        h.x as int,
                        h.y as int,
                        input_hex.x as int,
                        input_hex.y as int,
                    );
                    assert(false);
                }
                assert(placed_pre.stone_at(h) == self.stone_at(h));
                assert(placed_pre.stones_complete());
                assert(placed_pre.root_at(h) == root_of(
                    mid_slots,
                    self.stone_at(h)->Some_0.group_id.0 as int,
                ));
                assert(old(self).cells_seq()[index_of(RADIUS as int, h.x as int, h.y as int)]
                    is Some);
            }
            assert forall|rt: int, si: int|
                0 <= rt < mid_slots.len() && (#[trigger] mid_slots[rt]) is Live && 0 <= si
                    < group_at(mid_slots, rt).stones().len() implies {
                let s = #[trigger] group_at(mid_slots, rt).stones()[si];
                &&& s.in_bounds(RADIUS as int)
                &&& self.stone_at(s) is Some
                &&& root_of(mid_slots, self.stone_at(s)->Some_0.group_id.0 as int) == rt
            } by {
                let s = group_at(mid_slots, rt).stones()[si];
                assert(placed_pre.stone_at(s) is Some && placed_pre.root_at(s) == rt);
                lemma_index_coord(RADIUS as int, s.x as int, s.y as int);
                if index_of(RADIUS as int, s.x as int, s.y as int) == idx as int {
                    lemma_index_injective(
                        RADIUS as int,
                        s.x as int,
                        s.y as int,
                        input_hex.x as int,
                        input_hex.y as int,
                    );
                    assert(false);
                }
                assert(self.stone_at(s) == placed_pre.stone_at(s));
            }
        }

        // point the friendly neighbor stones at the surviving group
        let mut d2: usize = 0;
        while d2 < 6
            invariant
                d2 <= 6,
                radius_ok(RADIUS as int),
                input_hex.in_bounds(RADIUS as int),
                idx as int == index_of(RADIUS as int, input_hex.x as int, input_hex.y as int),
                (idx as int) < old_cells.len(),
                stone == (Stone { owner: player, group_id: survivor }),
                player == old(self).to_move,
                self.cells@.len() == old_cells.len(),
                old_cells.len() == dim(RADIUS as int) * dim(RADIUS as int),
                self.cells@[idx as int] == Some(stone),
                (survivor.0 as int) < self.groups.slots().len(),
                forall|j: int|
                    0 <= j < old_cells.len() && j != idx as int ==> ((#[trigger] self.cells@[j])
                        is Some == old_cells[j] is Some),
                forall|j: int|
                    0 <= j < old_cells.len() && j != idx as int && old_cells[j] is Some
                        ==> #[trigger] self.cells@[j]->Some_0.owner == old_cells[j]->Some_0.owner,
                occ_count(self.cells@, old_cells.len() as int) == occ_count(
                    old_cells,
                    old_cells.len() as int,
                ) + 1,
                old(self).wf(),
                old_cells == old(self).cells@,
                old_slots == old(self).groups.slots(),
                forall|e: int|
                    0 <= e < 6 && #[trigger] Self::friendly_neighbor(*old(self), input_hex, e)
                        ==> exists|jj: int|
                        0 <= jj < roots@.len() && ((#[trigger] roots@[jj]).0 as int) == old(
                            self,
                        ).root_at(Self::nbr_hex(input_hex, e)),
                forall|e: int|
                    0 <= e < d2 && #[trigger] Self::friendly_neighbor(*old(self), input_hex, e)
                        ==> {
                        let nj = index_of(
                            RADIUS as int,
                            input_hex.x as int + dir_dx(e),
                            input_hex.y as int + dir_dy(e),
                        );
                        &&& self.cells@[nj] is Some
                        &&& self.cells@[nj]->Some_0.group_id == survivor
                    },
                forall|j: int|
                    0 <= j < old_cells.len() && j != idx as int && old_cells[j] is Some ==> ((
                    #[trigger] self.cells@[j]) == old_cells[j] || (self.cells@[j] is Some
                        && self.cells@[j]->Some_0.group_id == survivor && exists|jj: int|
                        0 <= jj < roots@.len() && ((#[trigger] roots@[jj]).0 as int) == root_of(
                            old_slots,
                            old_cells[j]->Some_0.group_id.0 as int,
                        ))),
                old_slots.len() <= mid_slots.len(),
                root_of(mid_slots, survivor.0 as int) == survivor.0 as int,
                mid_slots[survivor.0 as int] is Live,
                forall|k: int|
                    0 <= k < old_slots.len() ==> root_of(mid_slots, k) == root_image(
                        old_slots,
                        roots@,
                        survivor.0 as int,
                        k,
                    ),
                forall|h: Hex|
                    h.in_bounds(RADIUS as int) && h != input_hex && #[trigger] self.stone_at(h)
                        is Some ==> ((self.stone_at(h)->Some_0.group_id.0 as int)
                        < mid_slots.len() && group_at(
                        mid_slots,
                        root_of(mid_slots, self.stone_at(h)->Some_0.group_id.0 as int),
                    ).stones().contains(h)),
                forall|rt: int, si: int|
                    0 <= rt < mid_slots.len() && (#[trigger] mid_slots[rt]) is Live && 0 <= si
                        < group_at(mid_slots, rt).stones().len() ==> {
                        let s = #[trigger] group_at(mid_slots, rt).stones()[si];
                        &&& s.in_bounds(RADIUS as int)
                        &&& self.stone_at(s) is Some
                        &&& root_of(mid_slots, self.stone_at(s)->Some_0.group_id.0 as int) == rt
                    },
                forall|j: int|
                    0 <= j < self.cells@.len() && #[trigger] self.cells@[j] is Some ==> idx_in_hex(
                        RADIUS as int,
                        j,
                    ),
                forall|j: int|
                    0 <= j < self.cells@.len() && #[trigger] self.cells@[j] is Some ==> (
                    self.cells@[j]->Some_0.group_id.0 as int) < self.groups.slots().len(),
                self.groups.slots() == mid_slots,
                self.to_move == old(self).to_move,
                self.game_state == old(self).game_state,
                self.turn == old(self).turn,
            decreases 6 - d2,
        {
            let ghost cells1 = self.cells@;
            let ghost bent = *self;
            match bounded_neighbor(input_hex, d2, RADIUS) {
                Some(nh) => {
                    proof {
                        lemma_index_coord(RADIUS as int, nh.x as int, nh.y as int);
                        if index_of(RADIUS as int, nh.x as int, nh.y as int) == idx as int {
                            lemma_index_injective(
                                RADIUS as int,
                                nh.x as int,
                                nh.y as int,
                                input_hex.x as int,
                                input_hex.y as int,
                            );
                            assert(dir_dx(d2 as int) != 0 || dir_dy(d2 as int) != 0);
                            assert(false);
                        }
                    }
                    let nidx = cell_index(nh, RADIUS);
                    let c: Option<Stone> = self.cells[nidx];
                    match c {
                        Some(s) => {
                            if s.owner == player {
                                proof {
                                    assert(nh == Self::nbr_hex(input_hex, d2 as int));
                                    assert(Self::friendly_neighbor(
                                        *old(self),
                                        input_hex,
                                        d2 as int,
                                    ));
                                    assert(old(self).root_at(nh) == root_of(
                                        old_slots,
                                        old_cells[nidx as int]->Some_0.group_id.0 as int,
                                    ));
                                }
                                let ghost before = self.cells@;
                                let refreshed = Stone { owner: s.owner, group_id: survivor };
                                self.cells.set(nidx, Some(refreshed));
                                proof {
                                    lemma_occ_count_replace(
                                        before,
                                        nidx as int,
                                        refreshed,
                                        old_cells.len() as int,
                                    );
                                    assert(self.cells@[nidx as int] is Some
                                        && self.cells@[nidx as int]->Some_0.group_id == survivor);
                                    assert(exists|jj: int|
                                        0 <= jj < roots@.len() && ((#[trigger] roots@[jj]).0
                                            as int) == root_of(
                                            old_slots,
                                            old_cells[nidx as int]->Some_0.group_id.0 as int,
                                        ));
                                    assert(bent.stone_at(nh) is Some);
                                    assert(group_at(
                                        mid_slots,
                                        root_of(
                                            mid_slots,
                                            bent.stone_at(nh)->Some_0.group_id.0 as int,
                                        ),
                                    ).stones().contains(nh));
                                    let gid0 = bent.stone_at(nh)->Some_0.group_id;
                                    if gid0 == survivor {
                                        assert(root_of(mid_slots, gid0.0 as int) == survivor.0
                                            as int);
                                    } else {
                                        assert(before[nidx as int] == old_cells[nidx as int]);
                                        assert((gid0.0 as int) < old_slots.len()) by {
                                            assert(old(self).cells_seq()[nidx as int] is Some);
                                        }
                                        assert(root_of(mid_slots, gid0.0 as int) == root_image(
                                            old_slots,
                                            roots@,
                                            survivor.0 as int,
                                            gid0.0 as int,
                                        ));
                                        assert(root_of(old_slots, gid0.0 as int) == old(
                                            self,
                                        ).root_at(nh));
                                        assert(root_of(mid_slots, gid0.0 as int) == survivor.0
                                            as int);
                                    }
                                    assert(group_at(mid_slots, survivor.0 as int).stones().contains(
                                        nh,
                                    ));
                                    assert forall|h: Hex|
                                        h.in_bounds(RADIUS as int) && h != input_hex
                                            && #[trigger] self.stone_at(h)
                                            is Some implies ((self.stone_at(h)->Some_0.group_id.0
                                            as int) < mid_slots.len() && group_at(
                                            mid_slots,
                                            root_of(
                                                mid_slots,
                                                self.stone_at(h)->Some_0.group_id.0 as int,
                                            ),
                                        ).stones().contains(h)) by {
                                        lemma_index_coord(RADIUS as int, h.x as int, h.y as int);
                                        let hj = index_of(
                                            RADIUS as int,
                                            h.x as int,
                                            h.y as int,
                                        );
                                        if hj == nidx as int {
                                            lemma_index_injective(
                                                RADIUS as int,
                                                h.x as int,
                                                h.y as int,
                                                nh.x as int,
                                                nh.y as int,
                                            );
                                            assert(h == nh);
                                            assert(self.stone_at(h)->Some_0.group_id == survivor);
                                        } else {
                                            assert(self.stone_at(h) == bent.stone_at(h));
                                        }
                                    }
                                    assert forall|rt: int, si: int|
                                        0 <= rt < mid_slots.len() && (#[trigger] mid_slots[rt])
                                            is Live && 0 <= si < group_at(
                                            mid_slots,
                                            rt,
                                        ).stones().len() implies {
                                        let s = #[trigger] group_at(mid_slots, rt).stones()[si];
                                        &&& s.in_bounds(RADIUS as int)
                                        &&& self.stone_at(s) is Some
                                        &&& root_of(
                                            mid_slots,
                                            self.stone_at(s)->Some_0.group_id.0 as int,
                                        ) == rt
                                    } by {
                                        let s = group_at(mid_slots, rt).stones()[si];
                                        assert(bent.stone_at(s) is Some && root_of(
                                            mid_slots,
                                            bent.stone_at(s)->Some_0.group_id.0 as int,
                                        ) == rt);
                                        lemma_index_coord(RADIUS as int, s.x as int, s.y as int);
                                        if index_of(RADIUS as int, s.x as int, s.y as int)
                                            == nidx as int {
                                            lemma_index_injective(
                                                RADIUS as int,
                                                s.x as int,
                                                s.y as int,
                                                nh.x as int,
                                                nh.y as int,
                                            );
                                            assert(s == nh);
                                            assert(self.stone_at(s)->Some_0.group_id == survivor);
                                            assert(root_of(
                                                mid_slots,
                                                bent.stone_at(nh)->Some_0.group_id.0 as int,
                                            ) == survivor.0 as int);
                                        } else {
                                            assert(self.stone_at(s) == bent.stone_at(s));
                                        }
                                    }
                                }
                            }
                        },
                        None => {},
                    }
                },
                None => {},
            }
            proof {
                assert forall|e: int|
                    0 <= e < d2 + 1 && #[trigger] Self::friendly_neighbor(
                        *old(self),
                        input_hex,
                        e,
                    ) implies {
                    let nj = index_of(
                        RADIUS as int,
                        input_hex.x as int + dir_dx(e),
                        input_hex.y as int + dir_dy(e),
                    );
                    &&& self.cells@[nj] is Some
                    &&& self.cells@[nj]->Some_0.group_id == survivor
                } by {
                    lemma_index_coord(
                        RADIUS as int,
                        input_hex.x as int + dir_dx(e),
                        input_hex.y as int + dir_dy(e),
                    );
                    let nj = index_of(
                        RADIUS as int,
                        input_hex.x as int + dir_dx(e),
                        input_hex.y as int + dir_dy(e),
                    );
                    assert(0 <= nj < self.cells@.len());
                    if e < d2 {
                        assert(cells1[nj] is Some && cells1[nj]->Some_0.group_id == survivor);
                        assert(self.cells@[nj] == cells1[nj] || (self.cells@[nj] is Some
                            && self.cells@[nj]->Some_0.group_id == survivor));
                    }
                }
            }
            d2 = d2 + 1;
        }

        // record the stone in its group, with its cell classification
        let ghost refreshed_done = *self;
        self.groups.add_stone_and_classify(survivor, input_hex, RADIUS);
        proof {
            if no_friends {
                let g = group_at(self.groups.slots(), survivor.0 as int);
                assert(g.stones() =~= seq![input_hex]);
                let eb = g.edge_mask();
                let cb = g.corner_mask();
                assert(forall|m: u8| #[trigger] (0u8 | m) == m) by (bit_vector);
            }
            assert(forall|m: u8, i: u8|
                i < 6 ==> #[trigger] bit_set(m | mask_bit(i as int), i as int)) by (bit_vector);
            let fs2 = self.groups.slots();
            assert forall|rt: int|
                0 <= rt < fs2.len() && (#[trigger] fs2[rt]) is Live implies group_masks_match(
                group_at(fs2, rt),
                RADIUS as int,
            ) by {
                if rt == survivor.0 as int {
                    lemma_group_masks_add_stone(
                        group_at(mid_slots, rt),
                        group_at(fs2, rt),
                        input_hex,
                        RADIUS as int,
                    );
                } else {
                    assert(fs2[rt] == mid_slots[rt]);
                }
            }
            let surv = survivor.0 as int;
            assert(root_of(fs2, surv) == surv);
            assert forall|h: Hex|
                h.in_bounds(RADIUS as int) && #[trigger] self.stone_at(h) is Some implies group_at(
                fs2,
                self.root_at(h),
            ).stones().contains(h) by {
                lemma_index_coord(RADIUS as int, h.x as int, h.y as int);
                let g2s = group_at(fs2, surv).stones();
                assert(g2s == group_at(mid_slots, surv).stones().push(input_hex));
                if h == input_hex {
                    assert(self.stone_at(h)->Some_0.group_id == survivor);
                    assert(g2s[g2s.len() - 1] == input_hex);
                    assert(g2s.contains(h));
                } else {
                    assert(refreshed_done.stone_at(h) == self.stone_at(h));
                    let gid = self.stone_at(h)->Some_0.group_id.0 as int;
                    assert((gid as int) < mid_slots.len() && group_at(
                        mid_slots,
                        root_of(mid_slots, gid),
                    ).stones().contains(h));
                    assert(root_of(fs2, gid) == root_of(mid_slots, gid));
                    let rr = root_of(mid_slots, gid);
                    if rr == surv {
                        let si = choose|si: int|
                            0 <= si < group_at(mid_slots, surv).stones().len() && group_at(
                                mid_slots,
                                surv,
                            ).stones()[si] == h;
                        assert(g2s[si] == h);
                        assert(g2s.contains(h));
                    } else {
                        crate::arena::lemma_root_live(mid_slots, gid);
                        assert(0 <= rr < mid_slots.len());
                        assert(fs2[rr] == mid_slots[rr]);
                    }
                }
            }
            assert(self.stones_complete());
            assert forall|rt: int, si: int|
                0 <= rt < fs2.len() && (#[trigger] fs2[rt]) is Live && 0 <= si < group_at(
                    fs2,
                    rt,
                ).stones().len() implies {
                let s = #[trigger] group_at(fs2, rt).stones()[si];
                &&& s.in_bounds(RADIUS as int)
                &&& self.stone_at(s) is Some
                &&& self.root_at(s) == rt
            } by {
                let s = group_at(fs2, rt).stones()[si];
                if rt == surv {
                    assert(group_at(fs2, surv).stones() == group_at(
                        mid_slots,
                        surv,
                    ).stones().push(input_hex));
                    if si < group_at(mid_slots, surv).stones().len() {
                        assert(s == group_at(mid_slots, surv).stones()[si]);
                        assert(refreshed_done.stone_at(s) is Some && root_of(
                            mid_slots,
                            refreshed_done.stone_at(s)->Some_0.group_id.0 as int,
                        ) == surv);
                        assert(self.stone_at(s) == refreshed_done.stone_at(s));
                        let gid = self.stone_at(s)->Some_0.group_id.0 as int;
                        assert(root_of(fs2, gid) == root_of(mid_slots, gid));
                    } else {
                        assert(s == input_hex);
                        assert(self.stone_at(s)->Some_0.group_id == survivor);
                    }
                } else {
                    assert(fs2[rt] == mid_slots[rt]);
                    assert(refreshed_done.stone_at(s) is Some && root_of(
                        mid_slots,
                        refreshed_done.stone_at(s)->Some_0.group_id.0 as int,
                    ) == rt);
                    assert(self.stone_at(s) == refreshed_done.stone_at(s));
                    let gid = self.stone_at(s)->Some_0.group_id.0 as int;
                    assert(root_of(fs2, gid) == root_of(mid_slots, gid));
                }
            }
            assert(self.stones_sound());
        }

        // evaluate the win conditions, ring before bridge before fork
        let (ring, bridge, fork) = {
            let g = self.groups.group(survivor);
            (g.check_ring(), g.check_bridge(), g.check_fork())
        };
        proof {
            lemma_board_move_frame::<RADIUS>(*old(self), *self, input_hex, idx as int, stone);
            let fs = self.groups.slots();
            let surv = survivor.0 as int;
            assert(root_of(fs, surv) == surv && fs[surv] is Live);
            // the move rewires the merged representatives to the survivor
            // and leaves every other representative alone
            assert(forall|k: int|
                0 <= k < old_slots.len() ==> root_of(fs, k) == root_image(
                    old_slots,
                    roots@,
                    surv,
                    k,
                ));
            // adjacent stones of one player still resolve to one group
            assert forall|h1: Hex, h2: Hex|
                #![trigger adjacent(h1, h2), self.owner_at(h1), self.owner_at(h2)]
                h1.in_bounds(RADIUS as int) && h2.in_bounds(RADIUS as int) && adjacent(h1, h2)
                    && self.stone_at(h1) is Some && self.stone_at(h2) is Some && self.owner_at(h1)
                    == self.owner_at(h2) implies self.root_at(h1) == self.root_at(h2) by {
                lemma_index_coord(RADIUS as int, h1.x as int, h1.y as int);
                lemma_index_coord(RADIUS as int, h2.x as int, h2.y as int);
                if h1 == input_hex || h2 == input_hex {
                    let other = if h1 == input_hex {
                        h2
                    } else {
                        h1
                    };
                    if h2 == input_hex {
                        let dd0 = choose|dd0: int|
                            0 <= dd0 < 6 && input_hex.x as int == h1.x as int + dir_dx(dd0)
                                && input_hex.y as int == h1.y as int + dir_dy(dd0);
                        let rr = if dd0 < 3 {
                            dd0 + 3
                        } else {
                            dd0 - 3
                        };
                        assert(0 <= rr < 6 && other.x as int == input_hex.x as int + dir_dx(rr)
                            && other.y as int == input_hex.y as int + dir_dy(rr));
                        assert(adjacent(input_hex, other));
                    }
                    let dd = choose|dd: int|
                        0 <= dd < 6 && other.x as int == input_hex.x as int + dir_dx(dd)
                            && other.y as int == input_hex.y as int + dir_dy(dd);
                    assert(other != input_hex);
                    assert(other == Self::nbr_hex(input_hex, dd));
                    assert(self.owner_at(input_hex) == Some(player));
                    assert(self.owner_at(other) == old(self).owner_at(other));
                    assert(Self::friendly_neighbor(*old(self), input_hex, dd));
                    assert(self.stone_at(other)->Some_0.group_id == survivor);
                    assert(self.root_at(other) == surv);
                    assert(self.root_at(input_hex) == surv);
                } else {
                    assert(self.owner_at(h1) == old(self).owner_at(h1));
                    assert(self.owner_at(h2) == old(self).owner_at(h2));
                    assert(old(self).stone_at(h1) is Some && old(self).stone_at(h2) is Some);
                    assert(old(self).owner_at(h1) == old(self).owner_at(h2));
                    assert(old(self).root_at(h1) == old(self).root_at(h2));
                    let r0 = old(self).root_at(h1);
                    let img = if exists|jj: int|
                        0 <= jj < roots@.len() && ((#[trigger] roots@[jj]).0 as int) == r0 {
                        surv
                    } else {
                        r0
                    };
                    let j1 = index_of(RADIUS as int, h1.x as int, h1.y as int);
                    let j2 = index_of(RADIUS as int, h2.x as int, h2.y as int);
                    if j1 == idx as int {
                        lemma_index_injective(
                            RADIUS as int,
                            h1.x as int,
                            h1.y as int,
                            input_hex.x as int,
                            input_hex.y as int,
                        );
                        assert(false);
                    }
                    if j2 == idx as int {
                        lemma_index_injective(
                            RADIUS as int,
                            h2.x as int,
                            h2.y as int,
                            input_hex.x as int,
                            input_hex.y as int,
                        );
                        assert(false);
                    }
                    let g1 = old(self).stone_at(h1)->Some_0.group_id.0 as int;
                    let g2 = old(self).stone_at(h2)->Some_0.group_id.0 as int;
                    assert(root_of(old_slots, g1) == r0);
                    assert(root_of(old_slots, g2) == r0);
                    assert(self.cells@[j1] == old_cells[j1] || (self.cells@[j1] is Some
                        && self.cells@[j1]->Some_0.group_id == survivor && exists|jj: int|
                        0 <= jj < roots@.len() && ((#[trigger] roots@[jj]).0 as int) == root_of(
                            old_slots,
                            old_cells[j1]->Some_0.group_id.0 as int,
                        )));
                    if self.cells@[j1] == old_cells[j1] {
                        assert(self.root_at(h1) == root_image(old_slots, roots@, surv, g1));
                        assert(self.root_at(h1) == img);
                    } else {
                        assert(img == surv);
                        assert(self.root_at(h1) == surv);
                    }
                    if self.cells@[j2] == old_cells[j2] {
                        assert(self.root_at(h2) == root_image(old_slots, roots@, surv, g2));
                        assert(self.root_at(h2) == img);
                    } else {
                        assert(img == surv);
                        assert(self.root_at(h2) == surv);
                    }
                }
            }
            assert(self.groups_connected());
        }
        let ghost decided = *self;
        if ring {
            self.game_state = GameState::Win(player, WinCon::Ring);
            proof {
                lemma_groups_connected_transfer::<RADIUS>(decided, *self);
            }
            return Ok(self.game_state);
        }
        if bridge {
            self.game_state = GameState::Win(player, WinCon::Bridge);
            proof {
                lemma_groups_connected_transfer::<RADIUS>(decided, *self);
            }
            return Ok(self.game_state);
        }
        if fork {
            self.game_state = GameState::Win(player, WinCon::Fork);
            proof {
                lemma_groups_connected_transfer::<RADIUS>(decided, *self);
            }
            return Ok(self.game_state);
        }
        self.turn = self.turn + 1;
        let cc = cell_count(RADIUS);
        if self.turn >= cc {
            self.game_state = GameState::Draw;
            proof {
                lemma_groups_connected_transfer::<RADIUS>(decided, *self);
            }
            return Ok(self.game_state);
        }
        self.to_move = player.flip();
        proof {
            lemma_groups_connected_transfer::<RADIUS>(decided, *self);
        }
        Ok(GameState::Ongoing)
    }

    /// The cell a rank letter and a file number name: rank `'a'` is the
    /// row with the third cube coordinate at `RADIUS`, later letters step
    /// it down; file `1` is the column with `x == -RADIUS`, higher files
    /// step it up.
    pub open spec fn rank_file_x(rank: char, file: int) -> int {
        file - 1 - RADIUS as int
    }

    /// The `y` coordinate the rank letter and file number name.
    pub open spec fn rank_file_y(rank: char, file: int) -> int {
        0 - Self::rank_file_x(rank, file) - (RADIUS as int - (rank as int - 97))
    }

    /// Play a stone named by rank letter and file number. A pair that
    /// names no board cell is rejected as out of bounds; otherwise the
    /// move behaves exactly as a move at the named cell.
    pub fn move_at(&mut self, rank: char, file: usize) -> (r: Result<GameState, MoveError>)
        requires
            old(self).wf(),
        ensures
            final(self).wf(),
            ({
                let x = Self::rank_file_x(rank, file as int);
                let y = Self::rank_file_y(rank, file as int);
                &&& (old(self).state() != GameState::Ongoing ==> r == Result::<
                    GameState,
                    MoveError,
                >::Err(MoveError::GameOver) && *final(self) == *old(self))
                &&& (old(self).state() == GameState::Ongoing && !in_hex(RADIUS as int, x, y) ==> r
                    == Result::<GameState, MoveError>::Err(MoveError::OutOfBounds) && *final(self)
                    == *old(self))
                &&& (old(self).state() == GameState::Ongoing && in_hex(RADIUS as int, x, y)
                    ==> Self::move_post(
                    *old(self),
                    *final(self),
                    Hex { x: x as i32, y: y as i32 },
                    r,
                ))
            }),
    {
        match self.game_state {
            GameState::Ongoing => {},
            _ => {
                return Err(MoveError::GameOver);
            },
        }
        proof {
            lemma_cell_count_bounds(RADIUS as int);
        }
        if file == 0 || file > 2 * RADIUS + 1 {
            return Err(MoveError::OutOfBounds);
        }
        let code: u32 = rank as u32;
        if code < 97 || code > 97 + 2 * (RADIUS as u32) {
            return Err(MoveError::OutOfBounds);
        }
        let rad: i64 = RADIUS as i64;
        let x: i64 = file as i64 - 1 - rad;
        let z: i64 = rad - (code as i64 - 97);
        let y: i64 = -x - z;
        let hex = Hex { x: x as i32, y: y as i32 };
        self.move_at_raw(hex)
    }

    /// Every board cell with its occupant, each cell exactly once — all a
    /// renderer needs. The list's length is the board's cell count,
    /// `1 + 3R(R + 1)`.
    pub fn cells(&self) -> (r: Vec<(Hex, Option<Player>)>)
        requires
            self.wf(),
        ensures
            r@.len() == spec_cell_count(RADIUS as int),
            forall|k: int|
                0 <= k < r@.len() ==> (#[trigger] r@[k]).0.in_bounds(RADIUS as int) && r@[k].1
                    == self.owner_at(r@[k].0),
            forall|k1: int, k2: int| 0 <= k1 < k2 < r@.len() ==> r@[k1].0 != r@[k2].0,
            forall|k1: int, k2: int|
                0 <= k1 < k2 < r@.len() ==> index_of(
                    RADIUS as int,
                    (#[trigger] r@[k1]).0.x as int,
                    r@[k1].0.y as int,
                ) < index_of(RADIUS as int, (#[trigger] r@[k2]).0.x as int, r@[k2].0.y as int),
            forall|h: Hex|
                #[trigger] h.in_bounds(RADIUS as int) ==> exists|k: int|
                    0 <= k < r@.len() && (#[trigger] r@[k]).0 == h,
    {
        let d: usize = 2 * RADIUS + 1;
        proof {
            assert(dim(RADIUS as int) * dim(RADIUS as int) <= 400040001) by (nonlinear_arith)
                requires
                    1 <= RADIUS as int <= 10000,
            ;
        }
        let mut out: Vec<(Hex, Option<Player>)> = Vec::new();
        let mut a: usize = 0;
        let mut pos: usize = 0;
        while a < d
            invariant
                self.wf(),
                a <= d,
                d as int == dim(RADIUS as int),
                d as int * d as int <= 400040001,
                pos as int == a as int * d as int,
                (pos as int) <= dim(RADIUS as int) * dim(RADIUS as int),
                out@.len() == hex_count(RADIUS as int, pos as int),
                forall|k: int|
                    0 <= k < out@.len() ==> (#[trigger] out@[k]).0.in_bounds(RADIUS as int)
                        && out@[k].1 == self.owner_at(out@[k].0),
                forall|k: int|
                    0 <= k < out@.len() ==> index_of(
                        RADIUS as int,
                        (#[trigger] out@[k]).0.x as int,
                        out@[k].0.y as int,
                    ) < pos as int,
                forall|k1: int, k2: int|
                    0 <= k1 < k2 < out@.len() ==> index_of(
                        RADIUS as int,
                        (#[trigger] out@[k1]).0.x as int,
                        out@[k1].0.y as int,
                    ) < index_of(RADIUS as int, (#[trigger] out@[k2]).0.x as int, out@[k2].0.y as int),
                forall|h: Hex|
                    h.in_bounds(RADIUS as int) && index_of(RADIUS as int, h.x as int, h.y as int)
                        < pos as int ==> exists|k: int|
                        0 <= k < out@.len() && (#[trigger] out@[k]).0 == h,
            decreases d - a,
        {
            let mut b: usize = 0;
            proof {
                assert((a as int + 1) * d as int == a as int * d as int + d as int)
                    by (nonlinear_arith);
                assert((a as int + 1) * d as int <= d as int * d as int) by (nonlinear_arith)
                    requires
                        0 <= a as int && (a as int) < d as int,
                ;
            }
            while b < d
                invariant
                    self.wf(),
                    a < d,
                    b <= d,
                    d as int == dim(RADIUS as int),
                    d as int * d as int <= 400040001,
                    pos as int == a as int * d as int + b as int,
                    (a as int + 1) * d as int == a as int * d as int + d as int,
                    (a as int + 1) * d as int <= d as int * d as int,
                    out@.len() == hex_count(RADIUS as int, pos as int),
                    forall|k: int|
                        0 <= k < out@.len() ==> (#[trigger] out@[k]).0.in_bounds(RADIUS as int)
                            && out@[k].1 == self.owner_at(out@[k].0),
                    forall|k: int|
                        0 <= k < out@.len() ==> index_of(
                            RADIUS as int,
                            (#[trigger] out@[k]).0.x as int,
                            out@[k].0.y as int,
                        ) < pos as int,
                    forall|k1: int, k2: int|
                        0 <= k1 < k2 < out@.len() ==> index_of(
                            RADIUS as int,
                            (#[trigger] out@[k1]).0.x as int,
                            out@[k1].0.y as int,
                        ) < index_of(
                            RADIUS as int,
                            (#[trigger] out@[k2]).0.x as int,
                            out@[k2].0.y as int,
                        ),
                    forall|h: Hex|
                        h.in_bounds(RADIUS as int) && index_of(
                            RADIUS as int,
                            h.x as int,
                            h.y as int,
                        ) < pos as int ==> exists|k: int|
                            0 <= k < out@.len() && (#[trigger] out@[k]).0 == h,
                decreases d - b,
            {
                proof {
                    lemma_fundamental_div_mod_converse_board(
                        RADIUS as int,
                        a as int,
                        b as int,
                        pos as int,
                    );
                }
                let x: i64 = a as i64 - RADIUS as i64;
                let y: i64 = b as i64 - RADIUS as i64;
                let h = Hex { x: x as i32, y: y as i32 };
                let ghost prev = out@;
                if in_bounds(h, RADIUS) {
                    proof {
                        lemma_index_coord(RADIUS as int, h.x as int, h.y as int);
                    }
                    let hidx = cell_index(h, RADIUS);
                    let c: Option<Stone> = self.cells[hidx];
                    let owner: Option<Player> = match c {
                        Some(s) => Some(s.owner),
                        None => None,
                    };
                    out.push((h, owner));
                }
                proof {
                    assert forall|h2: Hex|
                        h2.in_bounds(RADIUS as int) && index_of(
                            RADIUS as int,
                            h2.x as int,
                            h2.y as int,
                        ) < pos as int + 1 implies exists|k: int|
                        0 <= k < out@.len() && (#[trigger] out@[k]).0 == h2 by {
                        if index_of(RADIUS as int, h2.x as int, h2.y as int) == pos as int {
                            lemma_index_injective(
                                RADIUS as int,
                                h2.x as int,
                                h2.y as int,
                                a as int - RADIUS as int,
                                b as int - RADIUS as int,
                            );
                            assert(h2 == h);
                            assert(out@[out@.len() - 1].0 == h2);
                        } else {
                            let k = choose|k: int| 0 <= k < prev.len() && (#[trigger] prev[k]).0
                                == h2;
                            assert(out@[k].0 == h2);
                        }
                    }
                }
                pos = pos + 1;
                b = b + 1;
            }
            a = a + 1;
        }
        proof {
            lemma_hex_count_total(RADIUS as int);
            assert(pos as int == d as int * d as int);
            assert forall|k1: int, k2: int| 0 <= k1 < k2 < out@.len() implies out@[k1].0
                != out@[k2].0 by {
                assert(index_of(RADIUS as int, out@[k1].0.x as int, out@[k1].0.y as int)
                    < index_of(RADIUS as int, out@[k2].0.x as int, out@[k2].0.y as int));
            }
            assert forall|h: Hex| #[trigger] h.in_bounds(RADIUS as int) implies exists|k: int|
                0 <= k < out@.len() && (#[trigger] out@[k]).0 == h by {
                lemma_index_coord(RADIUS as int, h.x as int, h.y as int);
            }
        }
        out
    }

    /// Every empty board cell, each exactly once — the legal moves, for a
    /// search over the game tree.
    pub fn empty_cells(&self) -> (r: Vec<Hex>)
        requires
            self.wf(),
        ensures
            forall|k: int|
                0 <= k < r@.len() ==> (#[trigger] r@[k]).in_bounds(RADIUS as int) && self.owner_at(
                    r@[k],
                ) is None,
            forall|k1: int, k2: int| 0 <= k1 < k2 < r@.len() ==> r@[k1] != r@[k2],
            forall|h: Hex|
                #[trigger] h.in_bounds(RADIUS as int) && self.owner_at(h) is None ==> exists|
                    k: int,
                |
                    0 <= k < r@.len() && (#[trigger] r@[k]) == h,
    {
        let all = self.cells();
        let mut out: Vec<Hex> = Vec::new();
        let mut i: usize = 0;
        while i < all.len()
            invariant
                i <= all@.len(),
                forall|k: int|
                    0 <= k < all@.len() ==> (#[trigger] all@[k]).0.in_bounds(RADIUS as int)
                        && all@[k].1 == self.owner_at(all@[k].0),
                forall|k1: int, k2: int|
                    0 <= k1 < k2 < all@.len() ==> index_of(
                        RADIUS as int,
                        (#[trigger] all@[k1]).0.x as int,
                        all@[k1].0.y as int,
                    ) < index_of(RADIUS as int, (#[trigger] all@[k2]).0.x as int, all@[k2].0.y as int),
                forall|k: int|
                    0 <= k < out@.len() ==> (#[trigger] out@[k]).in_bounds(RADIUS as int)
                        && self.owner_at(out@[k]) is None,
                forall|k1: int, k2: int|
                    0 <= k1 < k2 < out@.len() ==> index_of(
                        RADIUS as int,
                        (#[trigger] out@[k1]).x as int,
                        out@[k1].y as int,
                    ) < index_of(RADIUS as int, (#[trigger] out@[k2]).x as int, out@[k2].y as int),
                out@.len() > 0 ==> i > 0 && forall|k: int|
                    0 <= k < out@.len() ==> index_of(
                        RADIUS as int,
                        (#[trigger] out@[k]).x as int,
                        out@[k].y as int,
                    ) <= index_of(
                        RADIUS as int,
                        all@[i - 1].0.x as int,
                        all@[i - 1].0.y as int,
                    ),
                forall|j: int|
                    0 <= j < i && (#[trigger] all@[j]).1 is None ==> exists|k: int|
                        0 <= k < out@.len() && out@[k] == all@[j].0,
            decreases all@.len() - i,
        {
            let (h, owner) = all[i];
            let ghost prev = out@;
            if owner.is_none() {
                out.push(h);
            }
            proof {
                if i > 0 && prev.len() > 0 {
                    assert(index_of(
                        RADIUS as int,
                        all@[i as int - 1].0.x as int,
                        all@[i as int - 1].0.y as int,
                    ) <= index_of(RADIUS as int, all@[i as int].0.x as int, all@[i as int].0.y as int));
                }
                assert forall|j: int|
                    0 <= j < i + 1 && (#[trigger] all@[j]).1 is None implies exists|k: int|
                    0 <= k < out@.len() && out@[k] == all@[j].0 by {
                    if j < i {
                        let k = choose|k: int| 0 <= k < prev.len() && prev[k] == all@[j].0;
                        assert(out@[k] == all@[j].0);
                    } else {
                        assert(out@[out@.len() - 1] == all@[j].0);
                    }
                }
            }
            i = i + 1;
        }
        proof {
            assert forall|k1: int, k2: int| 0 <= k1 < k2 < out@.len() implies out@[k1]
                != out@[k2] by {
                assert(index_of(RADIUS as int, out@[k1].x as int, out@[k1].y as int) < index_of(
                    RADIUS as int,
                    out@[k2].x as int,
                    out@[k2].y as int,
                ));
            }
            assert forall|h: Hex|
                #[trigger] h.in_bounds(RADIUS as int) && self.owner_at(h) is None implies exists|
                k: int,
            | 0 <= k < out@.len() && (#[trigger] out@[k]) == h by {
                let j = choose|j: int| 0 <= j < all@.len() && (#[trigger] all@[j]).0 == h;
                assert(all@[j].1 is None);
            }
        }
        out
    }
}


/// On a well-formed board, two adjacent stones of one player resolve to
/// the same group, wherever the handles stored in their cells point.
pub proof fn lemma_groups_respect_adjacency<const RADIUS: usize>(b: Board<RADIUS>)
    requires
        b.wf(),
    ensures
        b.groups_connected(),
{
}

/// On a well-formed board, the masks of every live group record exactly
/// the board edges and corners its stones touch: a bridge win really
/// connects two corners, and a fork win three edges, through one group's
/// stones.
pub proof fn lemma_masks_reflect_stones<const RADIUS: usize>(b: Board<RADIUS>)
    requires
        b.wf(),
    ensures
        b.masks_match(),
{
}

/// On a well-formed board, the group a stone's cell resolves to lists that
/// stone: no stone of a class is missing from the group the win conditions
/// inspect.
pub proof fn lemma_groups_complete<const RADIUS: usize>(b: Board<RADIUS>)
    requires
        b.wf(),
    ensures
        b.stones_complete(),
{
}

/// On a well-formed board, each live group's stone list holds exactly the
/// stones whose cells resolve to it: listed stones are real stones of the
/// class, and no stone of the class is missing.
pub proof fn lemma_groups_sound<const RADIUS: usize>(b: Board<RADIUS>)
    requires
        b.wf(),
    ensures
        b.stones_sound(),
        b.stones_complete(),
{
}

/// Rejection changes nothing, however often it is retried: a rejected move
/// leaves the board as it was, and the same move is then rejected again,
/// with the same error.
pub proof fn lemma_rejection_idempotent<const RADIUS: usize>(
    pre: Board<RADIUS>,
    mid: Board<RADIUS>,
    post: Board<RADIUS>,
    input_hex: Hex,
    r1: Result<GameState, MoveError>,
    r2: Result<GameState, MoveError>,
)
    requires
        Board::<RADIUS>::move_post(pre, mid, input_hex, r1),
        r1 is Err,
        Board::<RADIUS>::move_post(mid, post, input_hex, r2),
    ensures
        mid == pre,
        post == pre,
        r2 == r1,
{
}

/// The flat position of column `b` in row `a` decomposes back into that
/// row and column.
proof fn lemma_fundamental_div_mod_converse_board(radius: int, a: int, b: int, pos: int)
    requires
        radius >= 1,
        0 <= a < dim(radius),
        0 <= b < dim(radius),
        pos == a * dim(radius) + b,
    ensures
        coord_x(radius, pos) == a - radius,
        coord_y(radius, pos) == b - radius,
        idx_in_hex(radius, pos) == in_hex(radius, a - radius, b - radius),
        index_of(radius, a - radius, b - radius) == pos,
{
    vstd::arithmetic::div_mod::lemma_fundamental_div_mod_converse(pos, dim(radius), a, b);
}

/// The count of moves a board has accepted: every accepted move adds one
/// stone, so the stones on the board count the accepted moves — the turn
/// counter agrees with it except that a winning move ends the game before
/// the counter advances.
pub proof fn lemma_occupied_counts_moves<const RADIUS: usize>(b: Board<RADIUS>)
    requires
        b.wf(),
    ensures
        b.state() is Win ==> b.occupied() == b.turns_taken() + 1,
        !(b.state() is Win) ==> b.occupied() == b.turns_taken(),
{
}

/// Board capacity: a board never holds more stones than it has cells, and
/// while it holds fewer, an empty board cell remains — so exactly
/// `1 + 3R(R + 1)` moves can be accepted before the draw is forced, absent
/// an earlier win.
pub proof fn lemma_board_capacity<const RADIUS: usize>(b: Board<RADIUS>)
    requires
        b.wf(),
    ensures
        b.occupied() <= spec_cell_count(RADIUS as int),
        b.occupied() < spec_cell_count(RADIUS as int) ==> exists|h: Hex|
            h.in_bounds(RADIUS as int) && b.owner_at(h) is None,
{
    let r = RADIUS as int;
    let s = b.cells_seq();
    let n = s.len() as int;
    lemma_occ_le_hex(r, s, n);
    lemma_hex_count_total(r);
    if b.occupied() < spec_cell_count(r) {
        lemma_exists_empty(r, s, n);
        let i = choose|i: int| 0 <= i < n && idx_in_hex(r, i) && s[i] is None;
        lemma_coord_index(r, i);
        let h = Hex { x: coord_x(r, i) as i32, y: coord_y(r, i) as i32 };
        assert(h.in_bounds(r));
        assert(b.stone_at(h) is None);
        assert(h.in_bounds(RADIUS as int) && b.owner_at(h) is None);
        assert(exists|h2: Hex| h2.in_bounds(RADIUS as int) && b.owner_at(h2) is None);
    }
}

/// A full board is decided: an accepted move on the last empty cell
/// returns a win or the draw, never an ongoing game.
pub proof fn lemma_last_cell_never_ongoing<const RADIUS: usize>(
    pre: Board<RADIUS>,
    post: Board<RADIUS>,
    input_hex: Hex,
    r: Result<GameState, MoveError>,
)
    requires
        pre.wf(),
        Board::<RADIUS>::move_post(pre, post, input_hex, r),
        r is Ok,
        pre.occupied() == spec_cell_count(RADIUS as int) - 1,
    ensures
        r->Ok_0 is Win || r->Ok_0 == GameState::Draw,
{
}

/// Group adjacency-consistency depends only on the cells and the group
/// slots, not on the turn state around them.
proof fn lemma_groups_connected_transfer<const RADIUS: usize>(b1: Board<RADIUS>, b2: Board<RADIUS>)
    requires
        b1.groups_connected(),
        b1.masks_match(),
        b1.stones_complete(),
        b1.stones_sound(),
        b2.cells_seq() == b1.cells_seq(),
        b2.slots() == b1.slots(),
    ensures
        b2.groups_connected(),
        b2.masks_match(),
        b2.stones_complete(),
        b2.stones_sound(),
{
    assert forall|h1: Hex, h2: Hex|
        #![trigger adjacent(h1, h2), b2.owner_at(h1), b2.owner_at(h2)]
        h1.in_bounds(RADIUS as int) && h2.in_bounds(RADIUS as int) && adjacent(h1, h2)
            && b2.stone_at(h1) is Some && b2.stone_at(h2) is Some && b2.owner_at(h1) == b2.owner_at(
            h2,
        ) implies b2.root_at(h1) == b2.root_at(h2) by {
        assert(b2.stone_at(h1) == b1.stone_at(h1));
        assert(b2.stone_at(h2) == b1.stone_at(h2));
        assert(b1.owner_at(h1) == b1.owner_at(h2));
    }
    assert forall|h: Hex|
        h.in_bounds(RADIUS as int) && #[trigger] b2.stone_at(h) is Some implies group_at(
        b2.slots(),
        b2.root_at(h),
    ).stones().contains(h) by {
        assert(b2.stone_at(h) == b1.stone_at(h));
    }
    assert forall|rt: int, si: int|
        0 <= rt < b2.slots().len() && (#[trigger] b2.slots()[rt]) is Live && 0 <= si < group_at(
            b2.slots(),
            rt,
        ).stones().len() implies {
        let s = #[trigger] group_at(b2.slots(), rt).stones()[si];
        &&& s.in_bounds(RADIUS as int)
        &&& b2.stone_at(s) is Some
        &&& b2.root_at(s) == rt
    } by {
        let s = group_at(b1.slots(), rt).stones()[si];
        assert(b2.stone_at(s) == b1.stone_at(s));
    }
}

/// An accepted move changes the occupancy map at the played cell alone.
proof fn lemma_board_move_frame<const RADIUS: usize>(
    b1: Board<RADIUS>,
    b2: Board<RADIUS>,
    input_hex: Hex,
    idx: int,
    stone: Stone,
)
    requires
        radius_ok(RADIUS as int),
        input_hex.in_bounds(RADIUS as int),
        idx == index_of(RADIUS as int, input_hex.x as int, input_hex.y as int),
        b1.cells_seq().len() == dim(RADIUS as int) * dim(RADIUS as int),
        b2.cells_seq().len() == b1.cells_seq().len(),
        b2.cells_seq()[idx] == Some(stone),
        forall|j: int|
            0 <= j < b1.cells_seq().len() && j != idx ==> ((#[trigger] b2.cells_seq()[j]) is Some
                == b1.cells_seq()[j] is Some),
        forall|j: int|
            0 <= j < b1.cells_seq().len() && j != idx && b1.cells_seq()[j] is Some
                ==> #[trigger] b2.cells_seq()[j]->Some_0.owner == b1.cells_seq()[j]->Some_0.owner,
    ensures
        b2.owner_at(input_hex) == Some(stone.owner),
        forall|h: Hex|
            h.in_bounds(RADIUS as int) && h != input_hex ==> b2.owner_at(h) == b1.owner_at(h),
{
    lemma_index_coord(RADIUS as int, input_hex.x as int, input_hex.y as int);
    assert forall|h: Hex| h.in_bounds(RADIUS as int) && h != input_hex implies b2.owner_at(h)
        == b1.owner_at(h) by {
        lemma_index_coord(RADIUS as int, h.x as int, h.y as int);
        if index_of(RADIUS as int, h.x as int, h.y as int) == idx {
            lemma_index_injective(
                RADIUS as int,
                h.x as int,
                h.y as int,
                input_hex.x as int,
                input_hex.y as int,
            );
        }
    }
}

/// The neighbor of an in-bounds cell in direction `d`, if it lies on the
/// board.
fn bounded_neighbor(h: Hex, d: usize, radius: usize) -> (r: Option<Hex>)
    requires
        d < 6,
        radius_ok(radius as int),
        h.in_bounds(radius as int),
    ensures
        (r is Some) == in_hex(
            radius as int,
            h.x as int + dir_dx(d as int),
            h.y as int + dir_dy(d as int),
        ),
        match r {
            Some(nh) => nh.x as int == h.x as int + dir_dx(d as int) && nh.y as int == h.y as int
                + dir_dy(d as int) && nh.in_bounds(radius as int),
            None => true,
        },
{
    let o = dir_offset(d);
    let nx: i64 = h.x as i64 + o.0 as i64;
    let ny: i64 = h.y as i64 + o.1 as i64;
    let nz: i64 = -nx - ny;
    let rad: i64 = radius as i64;
    if -rad <= nx && nx <= rad && -rad <= ny && ny <= rad && -rad <= nz && nz <= rad {
        Some(Hex { x: nx as i32, y: ny as i32 })
    } else {
        None
    }
}

/// Whether the list already holds this handle.
fn contains_id(v: &Vec<GroupId>, id: GroupId) -> (r: bool)
    ensures
        r == exists|k: int| 0 <= k < v@.len() && v@[k] == id,
{
    let mut i: usize = 0;
    while i < v.len()
        invariant
            i <= v@.len(),
            forall|k: int| 0 <= k < i ==> v@[k] != id,
        decreases v@.len() - i,
    {
        if v[i].0 == id.0 {
            return true;
        }
        i = i + 1;
    }
    false
}

/// A table with no stones has occupancy zero.
proof fn lemma_occ_none(s: Seq<Option<Stone>>, n: int)
    requires
        forall|k: int| 0 <= k < n ==> s[k] is None,
    ensures
        occ_count(s, n) == 0,
    decreases n,
{
    if n > 0 {
        lemma_occ_none(s, n - 1);
    }
}

} // verus!
