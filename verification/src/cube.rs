//! State representation of the 3x3x3 puzzle and the legal face turns.
//!
//! A cube is a sequence of 54 facelet colors, nine per face, each face laid
//! out as a row-major 3x3 grid. The face order is Up, Down, Right, Left,
//! Front, Back, so the face block of `Face::R` starts at index 18, and the
//! canonical solved state paints block `i` entirely with color `i`.

use vstd::prelude::*;

verus! {

/// One of the six faces of the puzzle.
#[derive(Clone, Copy, Debug, PartialEq, Eq, Structural)]
pub enum Face {
    U,
    D,
    R,
    L,
    F,
    B,
}

/// How far a face is turned: one, three, or two elementary 90-degree
/// clockwise turns.
#[derive(Clone, Copy, Debug, PartialEq, Eq, Structural)]
pub enum RotationDirection {
    Clockwise,
    CounterClockwise,
    DoubleTurn,
}

/// The index at which a face's 9-element block starts.
pub open spec fn face_start(f: Face) -> int {
    match f {
        Face::U => 0,
        Face::D => 9,
        Face::R => 18,
        Face::L => 27,
        Face::F => 36,
        Face::B => 45,
    }
}

/// How many elementary clockwise turns a rotation amount performs.
pub open spec fn turn_count(d: RotationDirection) -> int {
    match d {
        RotationDirection::Clockwise => 1,
        RotationDirection::CounterClockwise => 3,
        RotationDirection::DoubleTurn => 2,
    }
}

/// The amount that undoes this one on the same face.
pub open spec fn spec_opposite(d: RotationDirection) -> RotationDirection {
    match d {
        RotationDirection::Clockwise => RotationDirection::CounterClockwise,
        RotationDirection::CounterClockwise => RotationDirection::Clockwise,
        RotationDirection::DoubleTurn => RotationDirection::DoubleTurn,
    }
}

impl Face {
    /// Starting offset of this face's 9-element block in the state sequence.
    pub fn start_index(&self) -> (r: usize)
        ensures
            r == face_start(*self),
    {
        match self {
            Face::U => 0,
            Face::D => 9,
            Face::R => 18,
            Face::L => 27,
            Face::F => 36,
            Face::B => 45,
        }
    }
}

impl RotationDirection {
    /// The rotation amount that undoes this one: a clockwise quarter turn is
    /// undone by a counter-clockwise one and a half turn by another half turn.
    pub fn opposite(&self) -> (r: Self)
        ensures
            r == spec_opposite(*self),
    {
        match self {
            RotationDirection::Clockwise => RotationDirection::CounterClockwise,
            RotationDirection::CounterClockwise => RotationDirection::Clockwise,
            RotationDirection::DoubleTurn => RotationDirection::DoubleTurn,
        }
    }

    /// Number of elementary clockwise turns this amount performs.
    pub fn turns(&self) -> (r: usize)
        ensures
            r == turn_count(*self),
            1 <= r <= 3,
    {
        match self {
            RotationDirection::Clockwise => 1,
            RotationDirection::CounterClockwise => 3,
            RotationDirection::DoubleTurn => 2,
        }
    }
}

/// The one failure the cube can report: a state sequence whose length is
/// not 54.
#[derive(Clone, Copy, Debug, PartialEq, Eq, Structural)]
pub enum CubeError {
    InvalidStateLength,
}

/// A cube configuration: 54 facelet colors, nine per face, in face order
/// Up, Down, Right, Left, Front, Back.
#[derive(Debug)]
pub struct Cube {
    pub state: Vec<u8>,
}

impl View for Cube {
    type V = Seq<u8>;

    open spec fn view(&self) -> Seq<u8> {
        self.state@
    }
}

/// The canonical solved configuration: block `i` filled entirely with
/// color `i`.
pub open spec fn solved_state() -> Seq<u8> {
    Seq::new(54, |i: int| (i / 9) as u8)
}

/// A state is solved when every 9-element face block is internally uniform.
/// The block's color is not compared with the block's own index: a state
/// whose uniform blocks are permuted across faces still counts as solved.
pub open spec fn is_solved_state(s: Seq<u8>) -> bool {
    forall|i: int| 0 <= i < 54 ==> #[trigger] s[i] == s[9 * (i / 9)]
}

impl Cube {
    /// A cube state is well formed when it holds exactly 54 facelets.
    pub open spec fn wf(self) -> bool {
        self.state@.len() == 54
    }

    /// Builds a cube from an external 54-element sequence, copied verbatim,
    /// or the canonical solved state when no sequence is given. Any other
    /// length is rejected; the color distribution is deliberately not
    /// validated.
    pub fn new(state: Option<&[u8]>) -> (r: Result<Self, CubeError>)
        ensures
            match state {
                Option::Some(s) => {
                    if s@.len() == 54 {
                        r matches Ok(c) && c@ == s@
                    } else {
                        r matches Err(e) && e == CubeError::InvalidStateLength
                    }
                },
                Option::None => r matches Ok(c) && c@ == solved_state(),
            },
            r matches Ok(c) ==> c.wf(),
    {
        match state {
            Option::Some(s) => {
                if s.len() != 54 {
                    return Err(CubeError::InvalidStateLength);
                }
                let mut v: Vec<u8> = Vec::new();
                let mut j: usize = 0;
                while j < 54
                    invariant
                        j <= 54,
                        s@.len() == 54,
                        v@ =~= s@.subrange(0, j as int),
                    decreases 54 - j,
                {
                    v.push(s[j]);
                    j = j + 1;
                }
                proof {
                    assert(v@ =~= s@);
                }
                Ok(Cube { state: v })
            },
            Option::None => Ok(Cube { state: default_state() }),
        }
    }

    /// True when every face block is internally uniform.
    pub fn is_solved(&self) -> (r: bool)
        requires
            self.wf(),
        ensures
            r == is_solved_state(self@),
    {
        let mut i: usize = 0;
        while i < 54
            invariant
                i <= 54,
                self.wf(),
                forall|k: int| 0 <= k < i ==> #[trigger] self@[k] == self@[9 * (k / 9)],
            decreases 54 - i,
        {
            if self.state[i] != self.state[9 * (i / 9)] {
                return false;
            }
            i = i + 1;
        }
        true
    }
}

/// Source offset within a face block for one 90-degree clockwise turn of the
/// block: after the turn, the entry at offset `off` holds what stood at this
/// offset before. Row-major grid position (row, col) receives (2 - col, row);
/// the center (offset 4) is fixed.
pub open spec fn block_turn_src(off: int) -> int {
    if off == 0 {
        6
    } else if off == 1 {
        3
    } else if off == 2 {
        0
    } else if off == 3 {
        7
    } else if off == 4 {
        4
    } else if off == 5 {
        1
    } else if off == 6 {
        8
    } else if off == 7 {
        5
    } else {
        2
    }
}

/// Source index of facelet `i` under the face-block part of one clockwise
/// turn of `f`: indices inside the face's block rotate, all others stay.
pub open spec fn face_turn_src(f: Face, i: int) -> int {
    if face_start(f) <= i < face_start(f) + 9 {
        face_start(f) + block_turn_src(i - face_start(f))
    } else {
        i
    }
}

/// Position of the `p`-th facelet of the `k`-th neighboring 3-facelet strip
/// of a face, the four strips listed in the face's clockwise adjacency order.
pub open spec fn strip_pos(f: Face, k: int, p: int) -> int {
    match f {
        Face::U => if k == 0 {
            36 + p
        } else if k == 1 {
            27 + p
        } else if k == 2 {
            45 + p
        } else {
            18 + p
        },
        Face::D => if k == 0 {
            42 + p
        } else if k == 1 {
            24 + p
        } else if k == 2 {
            51 + p
        } else {
            33 + p
        },
        Face::R => if k == 0 {
            38 + 3 * p
        } else if k == 1 {
            2 + 3 * p
        } else if k == 2 {
            51 - 3 * p
        } else {
            15 - 3 * p
        },
        Face::L => if k == 0 {
            36 + 3 * p
        } else if k == 1 {
            17 - 3 * p
        } else if k == 2 {
            53 - 3 * p
        } else {
            3 * p
        },
        Face::F => if k == 0 {
            6 + p
        } else if k == 1 {
            18 + 3 * p
        } else if k == 2 {
            15 + p
        } else {
            35 - 3 * p
        },
        Face::B => if k == 0 {
            p
        } else if k == 1 {
            33 - 3 * p
        } else if k == 2 {
            9 + p
        } else {
            20 + 3 * p
        },
    }
}

/// Source index of facelet `i` under the strip-cycling part of one clockwise
/// turn of `f`: each strip receives the strip before it in clockwise order,
/// strip 0 receiving strip 3; all other indices stay.
pub open spec fn adj_src(f: Face, i: int) -> int {
    if i == strip_pos(f, 0, 0) {
        strip_pos(f, 3, 0)
    } else if i == strip_pos(f, 0, 1) {
        strip_pos(f, 3, 1)
    } else if i == strip_pos(f, 0, 2) {
        strip_pos(f, 3, 2)
    } else if i == strip_pos(f, 1, 0) {
        strip_pos(f, 0, 0)
    } else if i == strip_pos(f, 1, 1) {
        strip_pos(f, 0, 1)
    } else if i == strip_pos(f, 1, 2) {
        strip_pos(f, 0, 2)
    } else if i == strip_pos(f, 2, 0) {
        strip_pos(f, 1, 0)
    } else if i == strip_pos(f, 2, 1) {
        strip_pos(f, 1, 1)
    } else if i == strip_pos(f, 2, 2) {
        strip_pos(f, 1, 2)
    } else if i == strip_pos(f, 3, 0) {
        strip_pos(f, 2, 0)
    } else if i == strip_pos(f, 3, 1) {
        strip_pos(f, 2, 1)
    } else if i == strip_pos(f, 3, 2) {
        strip_pos(f, 2, 2)
    } else {
        i
    }
}

/// The state after the face-block part of one clockwise turn.
pub open spec fn face_rotated(s: Seq<u8>, f: Face) -> Seq<u8> {
    Seq::new(54, |i: int| s[face_turn_src(f, i)])
}

/// The state after the strip-cycling part of one clockwise turn.
pub open spec fn adj_rotated(s: Seq<u8>, f: Face) -> Seq<u8> {
    Seq::new(54, |i: int| s[adj_src(f, i)])
}

/// The state after one full elementary clockwise turn of `f`: the face block
/// rotates, then the four neighboring strips cycle one step.
pub open spec fn rotated_once(s: Seq<u8>, f: Face) -> Seq<u8> {
    adj_rotated(face_rotated(s, f), f)
}

/// The state after `n` elementary clockwise turns of `f`.
pub open spec fn rotated_times(s: Seq<u8>, f: Face, n: int) -> Seq<u8>
    decreases n,
{
    if n <= 0 {
        s
    } else {
        rotated_once(rotated_times(s, f, n - 1), f)
    }
}

/// The state after turning face `f` by amount `d`.
pub open spec fn rotated(s: Seq<u8>, f: Face, d: RotationDirection) -> Seq<u8> {
    rotated_times(s, f, turn_count(d))
}

/// The state after applying a sequence of moves in order.
pub open spec fn apply_moves(s: Seq<u8>, ms: Seq<(Face, RotationDirection)>) -> Seq<u8>
    decreases ms.len(),
{
    if ms.len() == 0 {
        s
    } else {
        apply_moves(rotated(s, ms[0].0, ms[0].1), ms.subrange(1, ms.len() as int))
    }
}

/// Executable twin of `face_turn_src`.
fn face_turn_src_at(f: Face, i: usize) -> (r: usize)
    requires
        i < 54,
    ensures
        r as int == face_turn_src(f, i as int),
        r < 54,
{
    let start = f.start_index();
    if start <= i && i < start + 9 {
        let off = i - start;
        let o2: usize = if off == 0 {
            6
        } else if off == 1 {
            3
        } else if off == 2 {
            0
        } else if off == 3 {
            7
        } else if off == 4 {
            4
        } else if off == 5 {
            1
        } else if off == 6 {
            8
        } else if off == 7 {
            5
        } else {
            2
        };
        start + o2
    } else {
        i
    }
}

/// Executable twin of `strip_pos`.
fn strip_pos_at(f: Face, k: usize, p: usize) -> (r: usize)
    requires
        k < 4,
        p < 3,
    ensures
        r as int == strip_pos(f, k as int, p as int),
        r < 54,
{
    match f {
        Face::U => if k == 0 {
            36 + p
        } else if k == 1 {
            27 + p
        } else if k == 2 {
            45 + p
        } else {
            18 + p
        },
        Face::D => if k == 0 {
            42 + p
        } else if k == 1 {
            24 + p
        } else if k == 2 {
            51 + p
        } else {
            33 + p
        },
        Face::R => if k == 0 {
            38 + 3 * p
        } else if k == 1 {
            2 + 3 * p
        } else if k == 2 {
            51 - 3 * p
        } else {
            15 - 3 * p
        },
        Face::L => if k == 0 {
            36 + 3 * p
        } else if k == 1 {
            17 - 3 * p
        } else if k == 2 {
            53 - 3 * p
        } else {
            3 * p
        },
        Face::F => if k == 0 {
            6 + p
        } else if k == 1 {
            18 + 3 * p
        } else if k == 2 {
            15 + p
        } else {
            35 - 3 * p
        },
        Face::B => if k == 0 {
            p
        } else if k == 1 {
            33 - 3 * p
        } else if k == 2 {
            9 + p
        } else {
            20 + 3 * p
        },
    }
}

/// Executable twin of `adj_src`.
fn adj_src_at(f: Face, i: usize) -> (r: usize)
    requires
        i < 54,
    ensures
        r as int == adj_src(f, i as int),
        r < 54,
{
    if i == strip_pos_at(f, 0, 0) {
        strip_pos_at(f, 3, 0)
    } else if i == strip_pos_at(f, 0, 1) {
        strip_pos_at(f, 3, 1)
    } else if i == strip_pos_at(f, 0, 2) {
        strip_pos_at(f, 3, 2)
    } else if i == strip_pos_at(f, 1, 0) {
        strip_pos_at(f, 0, 0)
    } else if i == strip_pos_at(f, 1, 1) {
        strip_pos_at(f, 0, 1)
    } else if i == strip_pos_at(f, 1, 2) {
        strip_pos_at(f, 0, 2)
    } else if i == strip_pos_at(f, 2, 0) {
        strip_pos_at(f, 1, 0)
    } else if i == strip_pos_at(f, 2, 1) {
        strip_pos_at(f, 1, 1)
    } else if i == strip_pos_at(f, 2, 2) {
        strip_pos_at(f, 1, 2)
    } else if i == strip_pos_at(f, 3, 0) {
        strip_pos_at(f, 2, 0)
    } else if i == strip_pos_at(f, 3, 1) {
        strip_pos_at(f, 2, 1)
    } else if i == strip_pos_at(f, 3, 2) {
        strip_pos_at(f, 2, 2)
    } else {
        i
    }
}

impl Cube {
    /// Rotates this face's own 9-element block 90 degrees clockwise in place.
    fn rotate_face_clockwise(&mut self, face: Face)
        requires
            old(self).wf(),
        ensures
            final(self).wf(),
            final(self)@ == face_rotated(old(self)@, face),
    {
        let mut next: Vec<u8> = Vec::new();
        let mut i: usize = 0;
        while i < 54
            invariant
                i <= 54,
                self == old(self),
                self.wf(),
                next@.len() == i,
                forall|k: int| 0 <= k < i ==> next@[k] == face_rotated(self@, face)[k],
            decreases 54 - i,
        {
            let src = face_turn_src_at(face, i);
            next.push(self.state[src]);
            i = i + 1;
        }
        proof {
            assert(next@ =~= face_rotated(self@, face));
        }
        self.state = next;
    }

    /// Cycles the four neighboring 3-facelet strips of this face one step
    /// clockwise in place.
    fn rotate_adjacent(&mut self, face: Face)
        requires
            old(self).wf(),
        ensures
            final(self).wf(),
            final(self)@ == adj_rotated(old(self)@, face),
    {
        let mut next: Vec<u8> = Vec::new();
        let mut i: usize = 0;
        while i < 54
            invariant
                i <= 54,
                self == old(self),
                self.wf(),
                next@.len() == i,
                forall|k: int| 0 <= k < i ==> next@[k] == adj_rotated(self@, face)[k],
            decreases 54 - i,
        {
            let src = adj_src_at(face, i);
            next.push(self.state[src]);
            i = i + 1;
        }
        proof {
            assert(next@ =~= adj_rotated(self@, face));
        }
        self.state = next;
    }

    /// Turns `face` by `direction` in place, as that many successive
    /// elementary clockwise turns.
    pub fn rotate(&mut self, face: Face, direction: RotationDirection)
        requires
            old(self).wf(),
        ensures
            final(self).wf(),
            final(self)@ == rotated(old(self)@, face, direction),
    {
        let times = direction.turns();
        let mut t: usize = 0;
        while t < times
            invariant
                t <= times,
                times == turn_count(direction),
                self.wf(),
                self@ == rotated_times(old(self)@, face, t as int),
            decreases times - t,
        {
            self.rotate_face_clockwise(face);
            self.rotate_adjacent(face);
            t = t + 1;
        }
    }

    /// Returns a copy of this cube with `face` turned by `direction`; the
    /// receiver is left unmodified.
    pub fn apply_move(&self, face: Face, direction: RotationDirection) -> (r: Cube)
        requires
            self.wf(),
        ensures
            r.wf(),
            r@ == rotated(self@, face, direction),
    {
        let mut new_cube = self.clone();
        new_cube.rotate(face, direction);
        new_cube
    }
}

impl Clone for Cube {
    /// An element-for-element copy of the facelet sequence.
    fn clone(&self) -> (r: Self)
        ensures
            r@ == self@,
    {
        let mut v: Vec<u8> = Vec::new();
        let mut i: usize = 0;
        while i < self.state.len()
            invariant
                i <= self.state@.len(),
                v@ =~= self.state@.subrange(0, i as int),
            decreases self.state@.len() - i,
        {
            v.push(self.state[i]);
            i = i + 1;
        }
        proof {
            assert(v@ =~= self.state@);
        }
        Cube { state: v }
    }
}

/// Structural equality over the full facelet sequence: two states are equal
/// exactly when every position matches.
pub fn cube_eq(a: &Cube, b: &Cube) -> (r: bool)
    ensures
        r == (a@ == b@),
{
    if a.state.len() != b.state.len() {
        return false;
    }
    let mut i: usize = 0;
    while i < a.state.len()
        invariant
            i <= a.state@.len(),
            a.state@.len() == b.state@.len(),
            forall|k: int| 0 <= k < i ==> a.state@[k] == b.state@[k],
        decreases a.state@.len() - i,
    {
        if a.state[i] != b.state[i] {
            return false;
        }
        i = i + 1;
    }
    proof {
        assert(a@ =~= b@);
    }
    true
}

proof fn lemma_face_turn_src_range(f: Face, i: int)
    requires
        0 <= i < 54,
    ensures
        0 <= face_turn_src(f, i) < 54,
{
}

proof fn lemma_adj_src_range(f: Face, i: int)
    requires
        0 <= i < 54,
    ensures
        0 <= adj_src(f, i) < 54,
{
}

/// Source index of one full elementary clockwise turn: strip cycling
/// composed with the face-block rotation.
pub open spec fn turn_src(f: Face, i: int) -> int {
    face_turn_src(f, adj_src(f, i))
}

proof fn lemma_rotated_once_at(s: Seq<u8>, f: Face, i: int)
    requires
        s.len() == 54,
        0 <= i < 54,
    ensures
        0 <= turn_src(f, i) < 54,
        rotated_once(s, f)[i] == s[turn_src(f, i)],
{
    lemma_adj_src_range(f, i);
    lemma_face_turn_src_range(f, adj_src(f, i));
}

/// Applying the one-turn source map four times leads back to the same index:
/// an elementary turn is a permutation of order four on the facelet indices.
#[verifier::rlimit(60)]
proof fn lemma_turn_src_four(f: Face, i: int)
    requires
        0 <= i < 54,
    ensures
        turn_src(f, turn_src(f, turn_src(f, turn_src(f, i)))) == i,
{
    match f {
        Face::U => {
            assert(turn_src(f, turn_src(f, turn_src(f, turn_src(f, i)))) == i);
        },
        Face::D => {
            assert(turn_src(f, turn_src(f, turn_src(f, turn_src(f, i)))) == i);
        },
        Face::R => {
            assert(turn_src(f, turn_src(f, turn_src(f, turn_src(f, i)))) == i);
        },
        Face::L => {
            assert(turn_src(f, turn_src(f, turn_src(f, turn_src(f, i)))) == i);
        },
        Face::F => {
            assert(turn_src(f, turn_src(f, turn_src(f, turn_src(f, i)))) == i);
        },
        Face::B => {
            assert(turn_src(f, turn_src(f, turn_src(f, turn_src(f, i)))) == i);
        },
    }
}

proof fn lemma_rotated_times_len(s: Seq<u8>, f: Face, n: int)
    requires
        s.len() == 54,
    ensures
        rotated_times(s, f, n).len() == 54,
    decreases n,
{
    if n > 0 {
        lemma_rotated_times_len(s, f, n - 1);
    }
}

/// Turning the same face `m` and then `n` elementary turns is the same as
/// turning it `m + n` elementary turns.
pub proof fn lemma_rotated_times_add(s: Seq<u8>, f: Face, m: int, n: int)
    requires
        m >= 0,
        n >= 0,
    ensures
        rotated_times(rotated_times(s, f, m), f, n) == rotated_times(s, f, m + n),
    decreases n,
{
    if n > 0 {
        lemma_rotated_times_add(s, f, m, n - 1);
    }
}

/// Four elementary clockwise turns of one face restore the original state.
pub proof fn lemma_four_elementary_turns(s: Seq<u8>, f: Face)
    requires
        s.len() == 54,
    ensures
        rotated_times(s, f, 4) == s,
{
    let r1 = rotated_once(s, f);
    let r2 = rotated_once(r1, f);
    let r3 = rotated_once(r2, f);
    let r4 = rotated_once(r3, f);
    assert(rotated_times(s, f, 0) == s);
    assert(rotated_times(s, f, 1) == r1);
    assert(rotated_times(s, f, 2) == r2);
    assert(rotated_times(s, f, 3) == r3);
    assert(rotated_times(s, f, 4) == r4);
    assert forall|i: int| 0 <= i < 54 implies r4[i] == s[i] by {
        let j1 = turn_src(f, i);
        lemma_rotated_once_at(r3, f, i);
        let j2 = turn_src(f, j1);
        lemma_rotated_once_at(r2, f, j1);
        let j3 = turn_src(f, j2);
        lemma_rotated_once_at(r1, f, j2);
        lemma_rotated_once_at(s, f, j3);
        lemma_turn_src_four(f, i);
    }
    assert(r4 =~= s);
}

/// Turn-order law: turning any face `Clockwise` four times in a row returns
/// the exact original state.
pub proof fn lemma_clockwise_four_times(s: Seq<u8>, f: Face)
    requires
        s.len() == 54,
    ensures
        rotated(
            rotated(
                rotated(rotated(s, f, RotationDirection::Clockwise), f, RotationDirection::Clockwise),
                f,
                RotationDirection::Clockwise,
            ),
            f,
            RotationDirection::Clockwise,
        ) == s,
{
    lemma_rotated_times_add(s, f, 1, 1);
    lemma_rotated_times_add(s, f, 2, 1);
    lemma_rotated_times_add(s, f, 3, 1);
    lemma_four_elementary_turns(s, f);
}

/// Round-trip law: turning a face by any amount and then by the opposite
/// amount on the same face returns the exact original state.
pub proof fn lemma_move_round_trip(s: Seq<u8>, f: Face, d: RotationDirection)
    requires
        s.len() == 54,
    ensures
        rotated(rotated(s, f, d), f, spec_opposite(d)) == s,
{
    lemma_rotated_times_add(s, f, turn_count(d), turn_count(spec_opposite(d)));
    lemma_four_elementary_turns(s, f);
}

/// Appending one move to a sequence applies it after the sequence.
pub proof fn lemma_apply_moves_push(
    s: Seq<u8>,
    ms: Seq<(Face, RotationDirection)>,
    m: (Face, RotationDirection),
)
    ensures
        apply_moves(s, ms.push(m)) == rotated(apply_moves(s, ms), m.0, m.1),
    decreases ms.len(),
{
    let ms2 = ms.push(m);
    if ms.len() == 0 {
        assert(ms2[0] == m);
        assert(ms2.subrange(1, ms2.len() as int) =~= Seq::<(Face, RotationDirection)>::empty());
        assert(apply_moves(s, ms2) == apply_moves(
            rotated(s, ms2[0].0, ms2[0].1),
            ms2.subrange(1, ms2.len() as int),
        ));
        assert(apply_moves(rotated(s, m.0, m.1), Seq::<(Face, RotationDirection)>::empty())
            == rotated(s, m.0, m.1));
        assert(apply_moves(s, ms) == s);
    } else {
        lemma_apply_moves_push(rotated(s, ms[0].0, ms[0].1), ms.subrange(1, ms.len() as int), m);
        assert(ms2[0] == ms[0]);
        assert(ms2.subrange(1, ms2.len() as int) =~= ms.subrange(1, ms.len() as int).push(m));
        assert(apply_moves(s, ms2) == apply_moves(
            rotated(s, ms2[0].0, ms2[0].1),
            ms2.subrange(1, ms2.len() as int),
        ));
        assert(apply_moves(s, ms) == apply_moves(
            rotated(s, ms[0].0, ms[0].1),
            ms.subrange(1, ms.len() as int),
        ));
    }
}

/// The fixed table of the 18 legal moves: the six faces in face order, each
/// with Clockwise, CounterClockwise, DoubleTurn.
pub open spec fn spec_move_at(k: int) -> (Face, RotationDirection) {
    (
        if k < 3 {
            Face::U
        } else if k < 6 {
            Face::D
        } else if k < 9 {
            Face::R
        } else if k < 12 {
            Face::L
        } else if k < 15 {
            Face::F
        } else {
            Face::B
        },
        if k % 3 == 0 {
            RotationDirection::Clockwise
        } else if k % 3 == 1 {
            RotationDirection::CounterClockwise
        } else {
            RotationDirection::DoubleTurn
        },
    )
}

/// The position of a move in the fixed 18-move table.
pub open spec fn move_index(f: Face, d: RotationDirection) -> int {
    3 * (match f {
        Face::U => 0int,
        Face::D => 1,
        Face::R => 2,
        Face::L => 3,
        Face::F => 4,
        Face::B => 5,
    }) + (match d {
        RotationDirection::Clockwise => 0int,
        RotationDirection::CounterClockwise => 1,
        RotationDirection::DoubleTurn => 2,
    })
}

/// Every legal move stands in the fixed 18-move table.
pub proof fn lemma_move_index(f: Face, d: RotationDirection)
    ensures
        0 <= move_index(f, d) < 18,
        spec_move_at(move_index(f, d)) == (f, d),
{
}

/// The `k`-th entry of the fixed 18-move table.
pub fn move_at(k: usize) -> (r: (Face, RotationDirection))
    requires
        k < 18,
    ensures
        r == spec_move_at(k as int),
{
    let face = if k < 3 {
        Face::U
    } else if k < 6 {
        Face::D
    } else if k < 9 {
        Face::R
    } else if k < 12 {
        Face::L
    } else if k < 15 {
        Face::F
    } else {
        Face::B
    };
    let dir = if k % 3 == 0 {
        RotationDirection::Clockwise
    } else if k % 3 == 1 {
        RotationDirection::CounterClockwise
    } else {
        RotationDirection::DoubleTurn
    };
    (face, dir)
}

/// The canonical solved state is solved, and every block holds exactly the
/// color equal to its own face index.
pub proof fn lemma_solved_state_solved()
    ensures
        is_solved_state(solved_state()),
        forall|i: int| 0 <= i < 54 ==> #[trigger] solved_state()[i] == (i / 9) as u8,
{
    assert forall|i: int| 0 <= i < 54 implies #[trigger] solved_state()[i] == solved_state()[9 * (
    i / 9)] by {
        let q = i / 9;
        assert(0 <= q < 6);
        assert(0 <= 9 * q < 54);
        assert((9 * q) / 9 == q) by (nonlinear_arith);
    }
}

/// The facelet sequence of the canonical solved configuration.
pub fn default_state() -> (r: Vec<u8>)
    ensures
        r@ == solved_state(),
{
    let mut v: Vec<u8> = Vec::new();
    let mut i: usize = 0;
    while i < 54
        invariant
            i <= 54,
            v@.len() == i,
            forall|k: int| 0 <= k < i ==> v@[k] == (k / 9) as u8,
        decreases 54 - i,
    {
        v.push((i / 9) as u8);
        i = i + 1;
    }
    proof {
        assert(v@ =~= solved_state());
    }
    v
}

} // verus!
