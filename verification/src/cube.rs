//! The cube state and move engine.
//!
//! A cube is tracked as 8 corner pieces and 12 edge pieces; each piece
//! remembers the position it belongs to in the solved cube and a twist
//! (corners, modulo 3) or flip (edges, modulo 2). A face turn moves one
//! 4-cycle of corner positions and one 4-cycle of edge positions, adding
//! face-dependent orientation deltas along the cycle.

use vstd::prelude::*;

verus! {

/// A face turn: one of the six faces, with a turn count.
/// Count 1 is a clockwise quarter turn, 2 a half turn and 3 a
/// counter-clockwise quarter turn.
#[derive(Clone, Copy, Debug, PartialEq, Eq, Structural)]
pub enum Move {
    U(u8),
    D(u8),
    L(u8),
    R(u8),
    F(u8),
    B(u8),
}

/// Face indices used by the spec-level move tables.
pub open spec fn face_of(m: Move) -> int {
    match m {
        Move::U(_) => 0,
        Move::D(_) => 1,
        Move::L(_) => 2,
        Move::R(_) => 3,
        Move::F(_) => 4,
        Move::B(_) => 5,
    }
}

pub open spec fn count_of(m: Move) -> int {
    match m {
        Move::U(n) => n as int,
        Move::D(n) => n as int,
        Move::L(n) => n as int,
        Move::R(n) => n as int,
        Move::F(n) => n as int,
        Move::B(n) => n as int,
    }
}

/// Builds the move with the given face index and count.
pub open spec fn move_from(face: int, count: u8) -> Move {
    if face == 0 {
        Move::U(count)
    } else if face == 1 {
        Move::D(count)
    } else if face == 2 {
        Move::L(count)
    } else if face == 3 {
        Move::R(count)
    } else if face == 4 {
        Move::F(count)
    } else {
        Move::B(count)
    }
}

/// A move is valid when its count lies in 1..=3.
pub open spec fn valid_move(m: Move) -> bool {
    1 <= count_of(m) <= 3
}

pub open spec fn valid_moves(ms: Seq<Move>) -> bool {
    forall|i: int| 0 <= i < ms.len() ==> valid_move(#[trigger] ms[i])
}

/// The inverse of a move: same face, count `4 - n`.
pub open spec fn spec_inverse(m: Move) -> Move {
    move_from(face_of(m), (4 - count_of(m)) as u8)
}

/// Combining two moves of the same face: counts add modulo 4.
/// Moves of different faces do not combine.
pub open spec fn spec_combine(a: Move, b: Move) -> Option<Move> {
    if face_of(a) == face_of(b) {
        Some(move_from(face_of(a), ((count_of(a) + count_of(b)) % 4) as u8))
    } else {
        None
    }
}

/// One piece of the cube: the position it belongs to in the solved cube,
/// and its current twist (corners, modulo 3) or flip (edges, modulo 2).
#[derive(Clone, Copy, Debug, PartialEq, Eq, Structural)]
pub struct Piece {
    pub index: u8,
    pub orientation: u8,
}

/// The cube state: 8 corner pieces and 12 edge pieces, indexed by position.
pub struct Cube {
    pub corners: Vec<Piece>,
    pub edges: Vec<Piece>,
}

/// A corner twisted `d` further steps.
pub open spec fn twist(p: Piece, d: int) -> Piece {
    Piece { index: p.index, orientation: ((p.orientation + d) % 3) as u8 }
}

/// An edge flipped `d` further times.
pub open spec fn flip(p: Piece, d: int) -> Piece {
    Piece { index: p.index, orientation: ((p.orientation + d) % 2) as u8 }
}

/// The identity arrangement of `n` pieces.
pub open spec fn solved_pieces(n: nat) -> Seq<Piece> {
    Seq::new(n, |i: int| Piece { index: i as u8, orientation: 0 })
}

pub open spec fn pieces_wf(s: Seq<Piece>, positions: int, orientations: int) -> bool {
    forall|i: int|
        0 <= i < s.len() ==> (#[trigger] s[i]).index < positions && s[i].orientation
            < orientations
}

/// Which position a quarter turn of face `f` reads to fill corner
/// position `i`; positions off the face map to themselves.
pub open spec fn corner_src(f: int, i: int) -> int {
    if f == 0 {
        if i == 0 { 1 } else if i == 1 { 6 } else if i == 6 { 7 } else if i == 7 { 0 } else { i }
    } else if f == 1 {
        if i == 2 { 3 } else if i == 3 { 4 } else if i == 4 { 5 } else if i == 5 { 2 } else { i }
    } else if f == 2 {
        if i == 4 { 7 } else if i == 5 { 4 } else if i == 6 { 5 } else if i == 7 { 6 } else { i }
    } else if f == 3 {
        if i == 0 { 3 } else if i == 1 { 0 } else if i == 2 { 1 } else if i == 3 { 2 } else { i }
    } else if f == 4 {
        if i == 0 { 7 } else if i == 3 { 0 } else if i == 4 { 3 } else if i == 7 { 4 } else { i }
    } else {
        if i == 1 { 2 } else if i == 6 { 1 } else if i == 5 { 6 } else if i == 2 { 5 } else { i }
    }
}

/// The twist added to the corner arriving at position `i` under a quarter
/// turn of face `f`: zero for U and D, and 1, 2, 1, 2 along the cycle for
/// the other four faces.
pub open spec fn corner_delta(f: int, i: int) -> int {
    if f == 0 || f == 1 {
        0
    } else if f == 2 {
        if i == 4 { 2 } else if i == 5 { 1 } else if i == 6 { 2 } else if i == 7 { 1 } else { 0 }
    } else if f == 3 {
        if i == 0 { 2 } else if i == 1 { 1 } else if i == 2 { 2 } else if i == 3 { 1 } else { 0 }
    } else if f == 4 {
        if i == 0 { 1 } else if i == 3 { 2 } else if i == 4 { 1 } else if i == 7 { 2 } else { 0 }
    } else {
        if i == 1 { 2 } else if i == 6 { 1 } else if i == 5 { 2 } else if i == 2 { 1 } else { 0 }
    }
}

/// Which position a quarter turn of face `f` reads to fill edge
/// position `i`.
pub open spec fn edge_src(f: int, i: int) -> int {
    if f == 0 {
        if i == 0 { 3 } else if i == 1 { 0 } else if i == 2 { 1 } else if i == 3 { 2 } else { i }
    } else if f == 1 {
        if i == 8 { 9 } else if i == 9 { 10 } else if i == 10 { 11 } else if i == 11 { 8 } else { i }
    } else if f == 2 {
        if i == 2 { 7 } else if i == 6 { 2 } else if i == 10 { 6 } else if i == 7 { 10 } else { i }
    } else if f == 3 {
        if i == 0 { 5 } else if i == 4 { 0 } else if i == 8 { 4 } else if i == 5 { 8 } else { i }
    } else if f == 4 {
        if i == 1 { 6 } else if i == 5 { 1 } else if i == 9 { 5 } else if i == 6 { 9 } else { i }
    } else {
        if i == 3 { 4 } else if i == 7 { 3 } else if i == 11 { 7 } else if i == 4 { 11 } else { i }
    }
}

/// The flip added to the edge arriving at position `i` under a quarter
/// turn of face `f`: zero for U and D, and 1, 0, 1, 0 along the cycle for
/// the other four faces.
pub open spec fn edge_delta(f: int, i: int) -> int {
    if f == 0 || f == 1 {
        0
    } else if f == 2 {
        if i == 2 { 1 } else if i == 10 { 1 } else { 0 }
    } else if f == 3 {
        if i == 0 { 1 } else if i == 8 { 1 } else { 0 }
    } else if f == 4 {
        if i == 1 { 1 } else if i == 9 { 1 } else { 0 }
    } else {
        if i == 3 { 1 } else if i == 11 { 1 } else { 0 }
    }
}

/// One quarter turn of face `f`, acting on the corner pieces.
pub open spec fn quarter_corners(f: int, s: Seq<Piece>) -> Seq<Piece> {
    Seq::new(s.len(), |i: int| twist(s[corner_src(f, i)], corner_delta(f, i)))
}

/// One quarter turn of face `f`, acting on the edge pieces.
pub open spec fn quarter_edges(f: int, s: Seq<Piece>) -> Seq<Piece> {
    Seq::new(s.len(), |i: int| flip(s[edge_src(f, i)], edge_delta(f, i)))
}

/// `n` quarter turns of face `f` on the corner pieces.
pub open spec fn quarters_corners(f: int, n: nat, s: Seq<Piece>) -> Seq<Piece>
    decreases n,
{
    if n == 0 {
        s
    } else {
        quarter_corners(f, quarters_corners(f, (n - 1) as nat, s))
    }
}

/// `n` quarter turns of face `f` on the edge pieces.
pub open spec fn quarters_edges(f: int, n: nat, s: Seq<Piece>) -> Seq<Piece>
    decreases n,
{
    if n == 0 {
        s
    } else {
        quarter_edges(f, quarters_edges(f, (n - 1) as nat, s))
    }
}

/// What a move does to the corner pieces: its count many quarter turns.
pub open spec fn move_corners(m: Move, s: Seq<Piece>) -> Seq<Piece> {
    quarters_corners(face_of(m), count_of(m) as nat, s)
}

/// What a move does to the edge pieces.
pub open spec fn move_edges(m: Move, s: Seq<Piece>) -> Seq<Piece> {
    quarters_edges(face_of(m), count_of(m) as nat, s)
}

impl Cube {
    /// The cube is well formed: full piece counts, indices in range,
    /// orientations reduced.
    pub open spec fn wf(&self) -> bool {
        &&& self.corners@.len() == 8
        &&& self.edges@.len() == 12
        &&& pieces_wf(self.corners@, 8, 3)
        &&& pieces_wf(self.edges@, 12, 2)
    }

    /// Every piece is home and untwisted.
    pub open spec fn spec_solved(&self) -> bool {
        self.corners@ == solved_pieces(8) && self.edges@ == solved_pieces(12)
    }
}

impl Move {
    /// The turn count carried by this move.
    pub fn count(&self) -> (n: u8)
        ensures
            n as int == count_of(*self),
    {
        match self {
            Move::U(n) => *n,
            Move::D(n) => *n,
            Move::L(n) => *n,
            Move::R(n) => *n,
            Move::F(n) => *n,
            Move::B(n) => *n,
        }
    }

    /// The move undoing this one: same face, opposite direction.
    pub fn inverse(&self) -> (r: Move)
        requires
            valid_move(*self),
        ensures
            r == spec_inverse(*self),
            valid_move(r),
    {
        match self {
            Move::U(n) => Move::U(4 - n),
            Move::D(n) => Move::D(4 - n),
            Move::L(n) => Move::L(4 - n),
            Move::R(n) => Move::R(4 - n),
            Move::F(n) => Move::F(4 - n),
            Move::B(n) => Move::B(4 - n),
        }
    }

    /// Merges two moves of the same face into one; `None` if the faces
    /// differ. A combined count of 0 denotes complete cancellation.
    pub fn combine(&self, other: &Move) -> (r: Option<Move>)
        requires
            valid_move(*self),
            valid_move(*other),
        ensures
            r == spec_combine(*self, *other),
    {
        match (self, other) {
            (Move::U(n1), Move::U(n2)) => Some(Move::U((n1 + n2) % 4)),
            (Move::D(n1), Move::D(n2)) => Some(Move::D((n1 + n2) % 4)),
            (Move::L(n1), Move::L(n2)) => Some(Move::L((n1 + n2) % 4)),
            (Move::R(n1), Move::R(n2)) => Some(Move::R((n1 + n2) % 4)),
            (Move::F(n1), Move::F(n2)) => Some(Move::F((n1 + n2) % 4)),
            (Move::B(n1), Move::B(n2)) => Some(Move::B((n1 + n2) % 4)),
            _ => None,
        }
    }

    /// The face index this move turns, as used by the spec move tables.
    pub fn face(&self) -> (f: u8)
        ensures
            f as int == face_of(*self),
    {
        match self {
            Move::U(_) => 0,
            Move::D(_) => 1,
            Move::L(_) => 2,
            Move::R(_) => 3,
            Move::F(_) => 4,
            Move::B(_) => 5,
        }
    }
}

/// A corner twisted `d` further steps.
fn twisted(p: Piece, d: u8) -> (r: Piece)
    requires
        p.orientation < 3,
        d <= 2,
    ensures
        r == twist(p, d as int),
{
    Piece { index: p.index, orientation: (p.orientation + d) % 3 }
}

/// An edge flipped `d` further times.
fn flipped(p: Piece, d: u8) -> (r: Piece)
    requires
        p.orientation < 2,
        d <= 1,
    ensures
        r == flip(p, d as int),
{
    Piece { index: p.index, orientation: (p.orientation + d) % 2 }
}

impl Cube {
    /// The cube in the identity state.
    pub fn solved() -> (c: Cube)
        ensures
            c.wf(),
            c.spec_solved(),
    {
        let mut corners: Vec<Piece> = Vec::new();
        let mut i: u8 = 0;
        while i < 8
            invariant
                i <= 8,
                corners@.len() == i as int,
                forall|k: int|
                    0 <= k < i as int ==> #[trigger] corners@[k] == (Piece {
                        index: k as u8,
                        orientation: 0,
                    }),
            decreases 8 - i,
        {
            corners.push(Piece { index: i, orientation: 0 });
            i = i + 1;
        }
        let mut edges: Vec<Piece> = Vec::new();
        let mut j: u8 = 0;
        while j < 12
            invariant
                j <= 12,
                edges@.len() == j as int,
                forall|k: int|
                    0 <= k < j as int ==> #[trigger] edges@[k] == (Piece {
                        index: k as u8,
                        orientation: 0,
                    }),
            decreases 12 - j,
        {
            edges.push(Piece { index: j, orientation: 0 });
            j = j + 1;
        }
        let c = Cube { corners, edges };
        proof {
            assert(c.corners@ =~= solved_pieces(8));
            assert(c.edges@ =~= solved_pieces(12));
        }
        c
    }

    /// One quarter turn of the face of `m` (the count is ignored here).
    fn quarter_turn(&mut self, m: Move)
        requires
            old(self).wf(),
        ensures
            final(self).wf(),
            final(self).corners@ == quarter_corners(face_of(m), old(self).corners@),
            final(self).edges@ == quarter_edges(face_of(m), old(self).edges@),
    {
        match m {
            Move::U(_) => {
                let c1 = self.corners[1];
                let c6 = self.corners[6];
                let c7 = self.corners[7];
                let c0 = self.corners[0];
                self.corners[0] = c1;
                self.corners[1] = c6;
                self.corners[6] = c7;
                self.corners[7] = c0;
                let e3 = self.edges[3];
                let e0 = self.edges[0];
                let e1 = self.edges[1];
                let e2 = self.edges[2];
                self.edges[0] = e3;
                self.edges[1] = e0;
                self.edges[2] = e1;
                self.edges[3] = e2;
            },
            Move::D(_) => {
                let c3 = self.corners[3];
                let c4 = self.corners[4];
                let c5 = self.corners[5];
                let c2 = self.corners[2];
                self.corners[2] = c3;
                self.corners[3] = c4;
                self.corners[4] = c5;
                self.corners[5] = c2;
                let e9 = self.edges[9];
                let e10 = self.edges[10];
                let e11 = self.edges[11];
                let e8 = self.edges[8];
                self.edges[8] = e9;
                self.edges[9] = e10;
                self.edges[10] = e11;
                self.edges[11] = e8;
            },
            Move::L(_) => {
                let c7 = self.corners[7];
                let c4 = self.corners[4];
                let c5 = self.corners[5];
                let c6 = self.corners[6];
                self.corners[4] = twisted(c7, 2);
                self.corners[5] = twisted(c4, 1);
                self.corners[6] = twisted(c5, 2);
                self.corners[7] = twisted(c6, 1);
                let e7 = self.edges[7];
                let e2 = self.edges[2];
                let e6 = self.edges[6];
                let e10 = self.edges[10];
                self.edges[2] = flipped(e7, 1);
                self.edges[6] = flipped(e2, 0);
                self.edges[10] = flipped(e6, 1);
                self.edges[7] = flipped(e10, 0);
            },
            Move::R(_) => {
                let c3 = self.corners[3];
                let c0 = self.corners[0];
                let c1 = self.corners[1];
                let c2 = self.corners[2];
                self.corners[0] = twisted(c3, 2);
                self.corners[1] = twisted(c0, 1);
                self.corners[2] = twisted(c1, 2);
                self.corners[3] = twisted(c2, 1);
                let e5 = self.edges[5];
                let e0 = self.edges[0];
                let e4 = self.edges[4];
                let e8 = self.edges[8];
                self.edges[0] = flipped(e5, 1);
                self.edges[4] = flipped(e0, 0);
                self.edges[8] = flipped(e4, 1);
                self.edges[5] = flipped(e8, 0);
            },
            Move::F(_) => {
                let c7 = self.corners[7];
                let c0 = self.corners[0];
                let c3 = self.corners[3];
                let c4 = self.corners[4];
                self.corners[0] = twisted(c7, 1);
                self.corners[3] = twisted(c0, 2);
                self.corners[4] = twisted(c3, 1);
                self.corners[7] = twisted(c4, 2);
                let e6 = self.edges[6];
                let e1 = self.edges[1];
                let e5 = self.edges[5];
                let e9 = self.edges[9];
                self.edges[1] = flipped(e6, 1);
                self.edges[5] = flipped(e1, 0);
                self.edges[9] = flipped(e5, 1);
                self.edges[6] = flipped(e9, 0);
            },
            Move::B(_) => {
                let c2 = self.corners[2];
                let c1 = self.corners[1];
                let c6 = self.corners[6];
                let c5 = self.corners[5];
                self.corners[1] = twisted(c2, 2);
                self.corners[6] = twisted(c1, 1);
                self.corners[5] = twisted(c6, 2);
                self.corners[2] = twisted(c5, 1);
                let e4 = self.edges[4];
                let e3 = self.edges[3];
                let e7 = self.edges[7];
                let e11 = self.edges[11];
                self.edges[3] = flipped(e4, 1);
                self.edges[7] = flipped(e3, 0);
                self.edges[11] = flipped(e7, 1);
                self.edges[4] = flipped(e11, 0);
            },
        }
        proof {
            assert(self.corners@ =~= quarter_corners(face_of(m), old(self).corners@));
            assert(self.edges@ =~= quarter_edges(face_of(m), old(self).edges@));
        }
    }

    /// Applies a move in place: its count many quarter turns of its face,
    /// each step reading the previous step's result.
    pub fn apply_move(&mut self, m: Move)
        requires
            old(self).wf(),
            valid_move(m),
        ensures
            final(self).wf(),
            final(self).corners@ == move_corners(m, old(self).corners@),
            final(self).edges@ == move_edges(m, old(self).edges@),
    {
        let n = m.count();
        let mut k: u8 = 0;
        while k < n
            invariant
                k <= n,
                n as int == count_of(m),
                self.wf(),
                self.corners@ == quarters_corners(face_of(m), k as nat, old(self).corners@),
                self.edges@ == quarters_edges(face_of(m), k as nat, old(self).edges@),
            decreases n - k,
        {
            self.quarter_turn(m);
            k = k + 1;
        }
    }

    /// True exactly when the cube is in the identity state.
    pub fn is_solved(&self) -> (r: bool)
        requires
            self.wf(),
        ensures
            r == self.spec_solved(),
    {
        let mut i: usize = 0;
        while i < 8
            invariant
                i <= 8,
                self.wf(),
                forall|k: int|
                    0 <= k < i as int ==> #[trigger] self.corners@[k] == (Piece {
                        index: k as u8,
                        orientation: 0,
                    }),
            decreases 8 - i,
        {
            let p = self.corners[i];
            if p.index as usize != i || p.orientation != 0 {
                proof {
                    assert(self.corners@[i as int] != solved_pieces(8)[i as int]);
                }
                return false;
            }
            i = i + 1;
        }
        let mut j: usize = 0;
        while j < 12
            invariant
                j <= 12,
                self.wf(),
                forall|k: int|
                    0 <= k < j as int ==> #[trigger] self.edges@[k] == (Piece {
                        index: k as u8,
                        orientation: 0,
                    }),
            decreases 12 - j,
        {
            let p = self.edges[j];
            if p.index as usize != j || p.orientation != 0 {
                proof {
                    assert(self.edges@[j as int] != solved_pieces(12)[j as int]);
                }
                return false;
            }
            j = j + 1;
        }
        proof {
            assert(self.corners@ =~= solved_pieces(8));
            assert(self.edges@ =~= solved_pieces(12));
        }
        true
    }
}

/// Doing `a + b` quarter turns is doing `b`, then `a` more.
proof fn lemma_quarters_corners_add(f: int, a: nat, b: nat, s: Seq<Piece>)
    ensures
        quarters_corners(f, a + b, s) == quarters_corners(f, a, quarters_corners(f, b, s)),
    decreases a,
{
    if a > 0 {
        lemma_quarters_corners_add(f, (a - 1) as nat, b, s);
    }
}

/// Doing `a + b` quarter turns is doing `b`, then `a` more.
proof fn lemma_quarters_edges_add(f: int, a: nat, b: nat, s: Seq<Piece>)
    ensures
        quarters_edges(f, a + b, s) == quarters_edges(f, a, quarters_edges(f, b, s)),
    decreases a,
{
    if a > 0 {
        lemma_quarters_edges_add(f, (a - 1) as nat, b, s);
    }
}

/// Four quarter turns of one face leave the corner pieces unchanged:
/// each piece returns along the 4-cycle, and the twists along the cycle
/// sum to a multiple of 3.
proof fn lemma_four_quarters_corners(f: int, s: Seq<Piece>)
    requires
        0 <= f <= 5,
        s.len() == 8,
        pieces_wf(s, 8, 3),
    ensures
        quarters_corners(f, 4, s) == s,
{
    let t1 = quarters_corners(f, 1, s);
    let t2 = quarters_corners(f, 2, s);
    let t3 = quarters_corners(f, 3, s);
    let t4 = quarters_corners(f, 4, s);
    assert(quarters_corners(f, 0, s) == s);
    assert(t1 == quarter_corners(f, s));
    assert(t2 == quarter_corners(f, t1));
    assert(t3 == quarter_corners(f, t2));
    assert(t4 == quarter_corners(f, t3));
    assert(t4 =~= s);
}

/// Four quarter turns of one face leave the edge pieces unchanged.
proof fn lemma_four_quarters_edges(f: int, s: Seq<Piece>)
    requires
        0 <= f <= 5,
        s.len() == 12,
        pieces_wf(s, 12, 2),
    ensures
        quarters_edges(f, 4, s) == s,
{
    let t1 = quarters_edges(f, 1, s);
    let t2 = quarters_edges(f, 2, s);
    let t3 = quarters_edges(f, 3, s);
    let t4 = quarters_edges(f, 4, s);
    assert(quarters_edges(f, 0, s) == s);
    assert(t1 == quarter_edges(f, s));
    assert(t2 == quarter_edges(f, t1));
    assert(t3 == quarter_edges(f, t2));
    assert(t4 == quarter_edges(f, t3));
    assert(t4 =~= s);
}

/// A move applied to well-formed corner pieces is undone by its inverse.
pub proof fn lemma_move_inverse_corners(m: Move, s: Seq<Piece>)
    requires
        valid_move(m),
        s.len() == 8,
        pieces_wf(s, 8, 3),
    ensures
        move_corners(spec_inverse(m), move_corners(m, s)) == s,
{
    let f = face_of(m);
    let n = count_of(m) as nat;
    let r = count_of(spec_inverse(m)) as nat;
    assert(face_of(spec_inverse(m)) == f);
    assert(r + n == 4);
    lemma_quarters_corners_add(f, r, n, s);
    lemma_four_quarters_corners(f, s);
}

/// A move applied to well-formed edge pieces is undone by its inverse.
pub proof fn lemma_move_inverse_edges(m: Move, s: Seq<Piece>)
    requires
        valid_move(m),
        s.len() == 12,
        pieces_wf(s, 12, 2),
    ensures
        move_edges(spec_inverse(m), move_edges(m, s)) == s,
{
    let f = face_of(m);
    let n = count_of(m) as nat;
    let r = count_of(spec_inverse(m)) as nat;
    assert(face_of(spec_inverse(m)) == f);
    assert(r + n == 4);
    lemma_quarters_edges_add(f, r, n, s);
    lemma_four_quarters_edges(f, s);
}

/// Law: applying a move and then its inverse returns any well-formed cube
/// state to where it started. The two counts add up to four quarter turns
/// of one face, which is the identity.
pub proof fn lemma_move_then_inverse_cancels(c: Cube, m: Move)
    requires
        c.wf(),
        valid_move(m),
    ensures
        move_corners(spec_inverse(m), move_corners(m, c.corners@)) == c.corners@,
        move_edges(spec_inverse(m), move_edges(m, c.edges@)) == c.edges@,
{
    lemma_move_inverse_corners(m, c.corners@);
    lemma_move_inverse_edges(m, c.edges@);
}

/// Law: merging two moves of one face matches applying them in turn. On
/// well-formed pieces the merged count, taken modulo four, does what the
/// two moves do one after the other; a merged count of zero does nothing.
pub proof fn lemma_combine_matches_application(a: Move, b: Move, c: Seq<Piece>, e: Seq<Piece>)
    requires
        valid_move(a),
        valid_move(b),
        face_of(a) == face_of(b),
        c.len() == 8,
        pieces_wf(c, 8, 3),
        e.len() == 12,
        pieces_wf(e, 12, 2),
    ensures
        ({
            let cnt = (count_of(a) + count_of(b)) % 4;
            &&& cnt != 0 ==> move_corners(b, move_corners(a, c)) == move_corners(
                move_from(face_of(a), cnt as u8),
                c,
            )
            &&& cnt != 0 ==> move_edges(b, move_edges(a, e)) == move_edges(
                move_from(face_of(a), cnt as u8),
                e,
            )
            &&& cnt == 0 ==> move_corners(b, move_corners(a, c)) == c
            &&& cnt == 0 ==> move_edges(b, move_edges(a, e)) == e
        }),
{
    let f = face_of(a);
    let na = count_of(a) as nat;
    let nb = count_of(b) as nat;
    let cnt = (count_of(a) + count_of(b)) % 4;
    assert(0 <= f <= 5);
    lemma_quarters_corners_add(f, nb, na, c);
    lemma_quarters_edges_add(f, nb, na, e);
    if na + nb >= 4 {
        lemma_quarters_corners_add(f, (na + nb - 4) as nat, 4, c);
        lemma_four_quarters_corners(f, c);
        lemma_quarters_edges_add(f, (na + nb - 4) as nat, 4, e);
        lemma_four_quarters_edges(f, e);
        assert(quarters_corners(f, na + nb, c) == quarters_corners(f, (na + nb - 4) as nat, c));
        assert(quarters_edges(f, na + nb, e) == quarters_edges(f, (na + nb - 4) as nat, e));
    }
    if cnt != 0 {
        let m = move_from(f, cnt as u8);
        assert(face_of(m) == f && count_of(m) == cnt);
    }
}

/// One quarter turn keeps the piece arrays well formed.
proof fn lemma_quarter_wf(f: int, c: Seq<Piece>, e: Seq<Piece>)
    requires
        c.len() == 8,
        pieces_wf(c, 8, 3),
        e.len() == 12,
        pieces_wf(e, 12, 2),
    ensures
        quarter_corners(f, c).len() == 8,
        pieces_wf(quarter_corners(f, c), 8, 3),
        quarter_edges(f, e).len() == 12,
        pieces_wf(quarter_edges(f, e), 12, 2),
{
    assert forall|i: int| 0 <= i < 8 implies (#[trigger] quarter_corners(f, c)[i]).index < 8
        && quarter_corners(f, c)[i].orientation < 3 by {
        assert(0 <= corner_src(f, i) < 8);
    }
    assert forall|i: int| 0 <= i < 12 implies (#[trigger] quarter_edges(f, e)[i]).index < 12
        && quarter_edges(f, e)[i].orientation < 2 by {
        assert(0 <= edge_src(f, i) < 12);
    }
}

proof fn lemma_quarters_wf(f: int, n: nat, c: Seq<Piece>, e: Seq<Piece>)
    requires
        c.len() == 8,
        pieces_wf(c, 8, 3),
        e.len() == 12,
        pieces_wf(e, 12, 2),
    ensures
        quarters_corners(f, n, c).len() == 8,
        pieces_wf(quarters_corners(f, n, c), 8, 3),
        quarters_edges(f, n, e).len() == 12,
        pieces_wf(quarters_edges(f, n, e), 12, 2),
    decreases n,
{
    if n > 0 {
        lemma_quarters_wf(f, (n - 1) as nat, c, e);
        lemma_quarter_wf(f, quarters_corners(f, (n - 1) as nat, c), quarters_edges(f, (n - 1) as nat, e));
    }
}

/// A move keeps the piece arrays well formed.
pub proof fn lemma_move_wf(m: Move, c: Seq<Piece>, e: Seq<Piece>)
    requires
        valid_move(m),
        c.len() == 8,
        pieces_wf(c, 8, 3),
        e.len() == 12,
        pieces_wf(e, 12, 2),
    ensures
        move_corners(m, c).len() == 8,
        pieces_wf(move_corners(m, c), 8, 3),
        move_edges(m, e).len() == 12,
        pieces_wf(move_edges(m, e), 12, 2),
{
    lemma_quarters_wf(face_of(m), count_of(m) as nat, c, e);
}

proof fn lemma_solved_wf()
    ensures
        pieces_wf(solved_pieces(8), 8, 3),
        pieces_wf(solved_pieces(12), 12, 2),
{
}

/// Law: a quarter turn applied to the solved cube four times in a row
/// yields the solved cube again, and does not yield it after one, two or
/// three applications.
pub proof fn lemma_quarter_turn_period(m: Move)
    requires
        count_of(m) == 1,
    ensures
        quarters_corners(face_of(m), 4, solved_pieces(8)) == solved_pieces(8),
        quarters_edges(face_of(m), 4, solved_pieces(12)) == solved_pieces(12),
        quarters_corners(face_of(m), 1, solved_pieces(8)) != solved_pieces(8),
        quarters_corners(face_of(m), 2, solved_pieces(8)) != solved_pieces(8),
        quarters_corners(face_of(m), 3, solved_pieces(8)) != solved_pieces(8),
{
    let f = face_of(m);
    let s0 = solved_pieces(8);
    lemma_solved_wf();
    lemma_four_quarters_corners(f, s0);
    lemma_four_quarters_edges(f, solved_pieces(12));
    let t1 = quarters_corners(f, 1, s0);
    let t2 = quarters_corners(f, 2, s0);
    let t3 = quarters_corners(f, 3, s0);
    assert(quarters_corners(f, 0, s0) == s0);
    assert(t1 == quarter_corners(f, s0));
    assert(t2 == quarter_corners(f, t1));
    assert(t3 == quarter_corners(f, t2));
    // In each case some corner position holds a piece from elsewhere.
    if f == 0 {
        assert(t1[0] != s0[0] && t2[0] != s0[0] && t3[0] != s0[0]);
    } else if f == 1 {
        assert(t1[2] != s0[2] && t2[2] != s0[2] && t3[2] != s0[2]);
    } else if f == 2 {
        assert(t1[4] != s0[4] && t2[4] != s0[4] && t3[4] != s0[4]);
    } else if f == 3 {
        assert(t1[0] != s0[0] && t2[0] != s0[0] && t3[0] != s0[0]);
    } else if f == 4 {
        assert(t1[0] != s0[0] && t2[0] != s0[0] && t3[0] != s0[0]);
    } else {
        assert(t1[1] != s0[1] && t2[1] != s0[1] && t3[1] != s0[1]);
    }
}

} // verus!
