//! Distance estimators for the solver.
//!
//! `combined_heuristic` evaluates ten independent estimators of the number of
//! moves left to reach the solved configuration and returns their maximum.
//! Several estimators are heuristically motivated counts rather than provably
//! admissible distances, so the combined value is not guaranteed to be a true
//! lower bound; this is an accepted limitation of the design. One estimator
//! looks a state up in a pattern database built by bounded breadth-first
//! exploration from the solved state.

use vstd::prelude::*;

use crate::cube::Cube;
use crate::cube::Face;
use crate::cube::RotationDirection;
use crate::cube::apply_moves;
use crate::cube::cube_eq;
use crate::cube::default_state;
use crate::cube::lemma_apply_moves_push;
use crate::cube::move_at;
use crate::cube::rotated;
use crate::cube::solved_state;

verus! {

/// The color canonically expected at position `i`: the index of the face
/// whose block holds `i`.
pub open spec fn expected_color(i: int) -> u8 {
    (i / 9) as u8
}

/// Count, over positions below `n`, of facelets whose color differs from the
/// color canonically expected there.
pub open spec fn misplaced_upto(s: Seq<u8>, n: int) -> int
    decreases n,
{
    if n <= 0 {
        0
    } else {
        misplaced_upto(s, n - 1) + (if s[n - 1] != expected_color(n - 1) {
            1int
        } else {
            0int
        })
    }
}

/// Estimator: count of facelets whose color differs from the color
/// canonically expected at their position.
pub open spec fn spec_misplaced_stickers(s: Seq<u8>) -> int {
    misplaced_upto(s, 54)
}

/// Absolute difference.
pub open spec fn abs_diff(a: int, b: int) -> int {
    if a >= b {
        a - b
    } else {
        b - a
    }
}

/// Coordinate distance of one facelet from where its color belongs: the sum
/// of the differences in column, row, and face coordinate. The solved
/// position of a color keeps the facelet's own offset within the block, so
/// the column and row differences always vanish and only the face
/// coordinate, compared against the color, contributes.
pub open spec fn facelet_distance(s: Seq<u8>, i: int) -> int {
    abs_diff((i % 9) % 3, (i % 9) % 3) + abs_diff((i % 9) / 3, (i % 9) / 3) + abs_diff(
        i / 9,
        s[i] as int,
    )
}

pub open spec fn manhattan_upto(s: Seq<u8>, n: int) -> int
    decreases n,
{
    if n <= 0 {
        0
    } else {
        manhattan_upto(s, n - 1) + facelet_distance(s, n - 1)
    }
}

/// Estimator: pseudo-Manhattan distance summed over all 54 facelets.
pub open spec fn spec_manhattan_distance(s: Seq<u8>) -> int {
    manhattan_upto(s, 54)
}

/// All nine facelets of face `f` share the color of the block's first entry.
pub open spec fn face_uniform(s: Seq<u8>, f: int) -> bool {
    forall|j: int| 9 * f <= j < 9 * f + 9 ==> #[trigger] s[j] == s[9 * f]
}

pub open spec fn unfinished_upto(s: Seq<u8>, n: int) -> int
    decreases n,
{
    if n <= 0 {
        0
    } else {
        unfinished_upto(s, n - 1) + (if !face_uniform(s, n - 1) {
            1int
        } else {
            0int
        })
    }
}

/// Estimator: count of faces that are not internally uniform.
pub open spec fn spec_unfinished_faces(s: Seq<u8>) -> int {
    unfinished_upto(s, 6)
}

/// First facelet index of the `k`-th sampled edge pair: four pairs per face,
/// at offsets (1,3), (1,5), (3,7), (5,7) within the block.
pub open spec fn edge_a(k: int) -> int {
    9 * (k / 4) + (if k % 4 == 0 {
        1int
    } else if k % 4 == 1 {
        1
    } else if k % 4 == 2 {
        3
    } else {
        5
    })
}

/// Second facelet index of the `k`-th sampled edge pair.
pub open spec fn edge_b(k: int) -> int {
    9 * (k / 4) + (if k % 4 == 0 {
        3int
    } else if k % 4 == 1 {
        5
    } else if k % 4 == 2 {
        7
    } else {
        7
    })
}

pub open spec fn mismatched_edges_upto(s: Seq<u8>, n: int) -> int
    decreases n,
{
    if n <= 0 {
        0
    } else {
        mismatched_edges_upto(s, n - 1) + (if s[edge_a(n - 1)] != s[edge_b(n - 1)] {
            1int
        } else {
            0int
        })
    }
}

/// Estimator: count of sampled edge pairs whose two facelet colors differ
/// from each other.
pub open spec fn spec_misplaced_edges(s: Seq<u8>) -> int {
    mismatched_edges_upto(s, 24)
}

pub open spec fn edge_orient_upto(s: Seq<u8>, n: int) -> int
    decreases n,
{
    if n <= 0 {
        0
    } else {
        edge_orient_upto(s, n - 1) + (if s[edge_a(n - 1)] / 9 != s[edge_b(n - 1)] / 9 {
            1int
        } else {
            0int
        })
    }
}

/// Estimator: count of sampled edge pairs whose two colors fall in different
/// groups under division by the block size.
pub open spec fn spec_edge_orientation(s: Seq<u8>) -> int {
    edge_orient_upto(s, 24)
}

/// First facelet index of the `k`-th sampled corner triple: four triples per
/// face, with a fixed offset pattern per face group.
pub open spec fn corner_a(k: int) -> int {
    9 * (k / 4) + (if k < 4 {
        if k % 4 == 2 || k % 4 == 3 {
            2int
        } else {
            0
        }
    } else if k < 8 {
        if k % 4 == 2 || k % 4 == 3 {
            6
        } else {
            2
        }
    } else {
        if k % 4 == 2 || k % 4 == 3 {
            6
        } else {
            0
        }
    })
}

/// Second facelet index of the `k`-th sampled corner triple.
pub open spec fn corner_b(k: int) -> int {
    9 * (k / 4) + (if k < 4 {
        if k % 4 == 0 {
            2int
        } else if k % 4 == 1 {
            8
        } else if k % 4 == 2 {
            6
        } else {
            0
        }
    } else if k < 8 {
        if k % 4 == 0 {
            6
        } else if k % 4 == 1 {
            8
        } else if k % 4 == 2 {
            8
        } else {
            4
        }
    } else {
        if k % 4 == 0 {
            6
        } else if k % 4 == 1 {
            8
        } else if k % 4 == 2 {
            8
        } else {
            2
        }
    })
}

/// Third facelet index of the `k`-th sampled corner triple.
pub open spec fn corner_c(k: int) -> int {
    9 * (k / 4) + (if k < 4 {
        if k % 4 == 0 || k % 4 == 1 {
            6int
        } else {
            8
        }
    } else if k < 8 {
        if k % 4 == 0 {
            8
        } else if k % 4 == 1 {
            4
        } else if k % 4 == 2 {
            4
        } else {
            2
        }
    } else {
        if k % 4 == 0 {
            8
        } else if k % 4 == 1 {
            2
        } else if k % 4 == 2 {
            2
        } else {
            0
        }
    })
}

/// Whether the `k`-th corner triple's colors match, in order, the colors
/// canonically expected at its three positions.
pub open spec fn corner_matches(s: Seq<u8>, k: int) -> bool {
    s[corner_a(k)] == expected_color(corner_a(k)) && s[corner_b(k)] == expected_color(corner_b(k))
        && s[corner_c(k)] == expected_color(corner_c(k))
}

pub open spec fn corner_orient_upto(s: Seq<u8>, n: int) -> int
    decreases n,
{
    if n <= 0 {
        0
    } else {
        corner_orient_upto(s, n - 1) + (if !corner_matches(s, n - 1) {
            1int
        } else {
            0int
        })
    }
}

/// Estimator: count of sampled corner triples whose three colors do not
/// match, in order, the colors canonically expected at the three positions.
pub open spec fn spec_corner_orientation(s: Seq<u8>) -> int {
    corner_orient_upto(s, 24)
}

/// Whether either position of the `k`-th edge pair holds a color other than
/// the one canonically expected there.
pub open spec fn edge_off_face(s: Seq<u8>, k: int) -> bool {
    s[edge_a(k)] != expected_color(edge_a(k)) || s[edge_b(k)] != expected_color(edge_b(k))
}

pub open spec fn edge_perm_upto(s: Seq<u8>, n: int) -> int
    decreases n,
{
    if n <= 0 {
        0
    } else {
        edge_perm_upto(s, n - 1) + (if edge_off_face(s, n - 1) {
            1int
        } else {
            0int
        })
    }
}

/// Estimator: count of sampled edge pairs holding, at either position, a
/// color that does not belong to the face the position lies on.
pub open spec fn spec_edge_permutation(s: Seq<u8>) -> int {
    edge_perm_upto(s, 24)
}

pub open spec fn corner_perm_upto(s: Seq<u8>, n: int) -> int
    decreases n,
{
    if n <= 0 {
        0
    } else {
        corner_perm_upto(s, n - 1) + (if !corner_matches(s, n - 1) {
            1int
        } else {
            0int
        })
    }
}

/// Estimator: count of sampled corner triples holding, at any position, a
/// color that does not belong to the face the position lies on.
pub open spec fn spec_corner_permutation(s: Seq<u8>) -> int {
    corner_perm_upto(s, 24)
}

/// Number of positions `j` below `n` that form an inversion with position
/// `i`: `i < j` and the color at `i` orders after the color at `j`.
pub open spec fn inversions_with(s: Seq<u8>, i: int, n: int) -> int
    decreases n,
{
    if n <= 0 {
        0
    } else {
        inversions_with(s, i, n - 1) + (if i < n - 1 && s[i] > s[n - 1] {
            1int
        } else {
            0int
        })
    }
}

pub open spec fn inversions_upto(s: Seq<u8>, n: int) -> int
    decreases n,
{
    if n <= 0 {
        0
    } else {
        inversions_upto(s, n - 1) + inversions_with(s, n - 1, 54)
    }
}

/// Number of inversions of the facelet sequence read as a linear order.
pub open spec fn spec_inversions(s: Seq<u8>) -> int {
    inversions_upto(s, 54)
}

/// Estimator: parity bit of the inversion count.
pub open spec fn spec_parity(s: Seq<u8>) -> int {
    spec_inversions(s) % 2
}

/// Estimator: how many facelets hold a color other than the one canonically
/// expected at their position.
pub fn misplaced_stickers(cube: &Cube) -> (r: usize)
    requires
        cube.wf(),
    ensures
        r == spec_misplaced_stickers(cube@),
        r <= 54,
{
    let mut count: usize = 0;
    let mut i: usize = 0;
    while i < 54
        invariant
            i <= 54,
            cube.wf(),
            count <= i,
            count == misplaced_upto(cube@, i as int),
        decreases 54 - i,
    {
        if cube.state[i] != (i / 9) as u8 {
            count = count + 1;
        }
        i = i + 1;
    }
    count
}

/// 3-D coordinates of a position: column and row within its face, and the
/// face index.
pub fn index_to_xyz(i: usize) -> (r: (usize, usize, usize))
    requires
        i < 54,
    ensures
        r.0 == (i % 9) % 3,
        r.1 == (i % 9) / 3,
        r.2 == i / 9,
{
    ((i % 9) % 3, (i % 9) / 3, i / 9)
}

/// The coordinates at which a facelet of color `color` standing at `index`
/// would rest in the solved configuration: the same offset within the block,
/// on the face whose index equals the color.
pub fn correct_position(color: u8, index: usize) -> (r: (usize, usize, usize))
    requires
        index < 54,
    ensures
        r.0 == (index % 9) % 3,
        r.1 == (index % 9) / 3,
        r.2 == color as int,
{
    let offset = index % 9;
    (offset % 3, offset / 3, color as usize)
}

/// Estimator: pseudo-Manhattan distance between each facelet's position and
/// its solved position, summed over all 54 facelets.
pub fn manhattan_distance(cube: &Cube) -> (r: usize)
    requires
        cube.wf(),
    ensures
        r == spec_manhattan_distance(cube@),
        r <= 13986,
{
    let mut total: usize = 0;
    let mut i: usize = 0;
    while i < 54
        invariant
            i <= 54,
            cube.wf(),
            total <= 259 * i,
            total == manhattan_upto(cube@, i as int),
        decreases 54 - i,
    {
        let color = cube.state[i];
        let xyz = index_to_xyz(i);
        let cxyz = correct_position(color, i);
        let dx = if xyz.0 >= cxyz.0 {
            xyz.0 - cxyz.0
        } else {
            cxyz.0 - xyz.0
        };
        let dy = if xyz.1 >= cxyz.1 {
            xyz.1 - cxyz.1
        } else {
            cxyz.1 - xyz.1
        };
        let dz = if xyz.2 >= cxyz.2 {
            xyz.2 - cxyz.2
        } else {
            cxyz.2 - xyz.2
        };
        total = total + dx + dy + dz;
        i = i + 1;
    }
    total
}

/// Whether face `f`'s block is internally uniform.
fn face_block_uniform(cube: &Cube, f: usize) -> (r: bool)
    requires
        cube.wf(),
        f < 6,
    ensures
        r == face_uniform(cube@, f as int),
{
    let base = 9 * f;
    let mut j: usize = base;
    while j < base + 9
        invariant
            base == 9 * f,
            f < 6,
            cube.wf(),
            base <= j <= base + 9,
            forall|t: int| 9 * (f as int) <= t < j ==> #[trigger] cube@[t] == cube@[9 * (f as int)],
        decreases base + 9 - j,
    {
        if cube.state[j] != cube.state[base] {
            return false;
        }
        j = j + 1;
    }
    true
}

/// Estimator: number of faces that are not internally uniform.
pub fn unfinished_faces(cube: &Cube) -> (r: usize)
    requires
        cube.wf(),
    ensures
        r == spec_unfinished_faces(cube@),
        r <= 6,
{
    let mut count: usize = 0;
    let mut f: usize = 0;
    while f < 6
        invariant
            f <= 6,
            cube.wf(),
            count <= f,
            count == unfinished_upto(cube@, f as int),
        decreases 6 - f,
    {
        if !face_block_uniform(cube, f) {
            count = count + 1;
        }
        f = f + 1;
    }
    count
}

/// The two facelet indices of the `k`-th sampled edge pair.
fn edge_pair(k: usize) -> (r: (usize, usize))
    requires
        k < 24,
    ensures
        r.0 as int == edge_a(k as int),
        r.1 as int == edge_b(k as int),
        r.0 < 54,
        r.1 < 54,
{
    let base = 9 * (k / 4);
    let j = k % 4;
    let a: usize = if j == 0 {
        1
    } else if j == 1 {
        1
    } else if j == 2 {
        3
    } else {
        5
    };
    let b: usize = if j == 0 {
        3
    } else if j == 1 {
        5
    } else if j == 2 {
        7
    } else {
        7
    };
    (base + a, base + b)
}

/// The three facelet indices of the `k`-th sampled corner triple.
fn corner_triple(k: usize) -> (r: (usize, usize, usize))
    requires
        k < 24,
    ensures
        r.0 as int == corner_a(k as int),
        r.1 as int == corner_b(k as int),
        r.2 as int == corner_c(k as int),
        r.0 < 54,
        r.1 < 54,
        r.2 < 54,
{
    let base = 9 * (k / 4);
    let j = k % 4;
    let a: usize = if k < 4 {
        if j == 2 || j == 3 {
            2
        } else {
            0
        }
    } else if k < 8 {
        if j == 2 || j == 3 {
            6
        } else {
            2
        }
    } else {
        if j == 2 || j == 3 {
            6
        } else {
            0
        }
    };
    let b: usize = if k < 4 {
        if j == 0 {
            2
        } else if j == 1 {
            8
        } else if j == 2 {
            6
        } else {
            0
        }
    } else if k < 8 {
        if j == 0 {
            6
        } else if j == 1 {
            8
        } else if j == 2 {
            8
        } else {
            4
        }
    } else {
        if j == 0 {
            6
        } else if j == 1 {
            8
        } else if j == 2 {
            8
        } else {
            2
        }
    };
    let c: usize = if k < 4 {
        if j == 0 || j == 1 {
            6
        } else {
            8
        }
    } else if k < 8 {
        if j == 0 {
            8
        } else if j == 1 {
            4
        } else if j == 2 {
            4
        } else {
            2
        }
    } else {
        if j == 0 {
            8
        } else if j == 1 {
            2
        } else if j == 2 {
            2
        } else {
            0
        }
    };
    (base + a, base + b, base + c)
}

/// Estimator: number of sampled edge pairs whose two facelet colors differ.
pub fn misplaced_edges(cube: &Cube) -> (r: usize)
    requires
        cube.wf(),
    ensures
        r == spec_misplaced_edges(cube@),
        r <= 24,
{
    let mut count: usize = 0;
    let mut k: usize = 0;
    while k < 24
        invariant
            k <= 24,
            cube.wf(),
            count <= k,
            count == mismatched_edges_upto(cube@, k as int),
        decreases 24 - k,
    {
        let pair = edge_pair(k);
        if cube.state[pair.0] != cube.state[pair.1] {
            count = count + 1;
        }
        k = k + 1;
    }
    count
}

/// Estimator: number of sampled edge pairs whose two colors fall in
/// different groups under division by the block size.
pub fn edge_orientation_heuristic(cube: &Cube) -> (r: usize)
    requires
        cube.wf(),
    ensures
        r == spec_edge_orientation(cube@),
        r <= 24,
{
    let mut count: usize = 0;
    let mut k: usize = 0;
    while k < 24
        invariant
            k <= 24,
            cube.wf(),
            count <= k,
            count == edge_orient_upto(cube@, k as int),
        decreases 24 - k,
    {
        let pair = edge_pair(k);
        if cube.state[pair.0] / 9 != cube.state[pair.1] / 9 {
            count = count + 1;
        }
        k = k + 1;
    }
    count
}

/// Estimator: number of sampled corner triples whose colors do not match the
/// colors canonically expected at their three positions.
pub fn corner_orientation_heuristic(cube: &Cube) -> (r: usize)
    requires
        cube.wf(),
    ensures
        r == spec_corner_orientation(cube@),
        r <= 24,
{
    let mut count: usize = 0;
    let mut k: usize = 0;
    while k < 24
        invariant
            k <= 24,
            cube.wf(),
            count <= k,
            count == corner_orient_upto(cube@, k as int),
        decreases 24 - k,
    {
        let t = corner_triple(k);
        let ok = cube.state[t.0] == (t.0 / 9) as u8 && cube.state[t.1] == (t.1 / 9) as u8
            && cube.state[t.2] == (t.2 / 9) as u8;
        if !ok {
            count = count + 1;
        }
        k = k + 1;
    }
    count
}

/// Estimator: number of sampled edge pairs holding, at either position, a
/// color that does not belong to the face the position lies on.
pub fn edge_permutation_heuristic(cube: &Cube) -> (r: usize)
    requires
        cube.wf(),
    ensures
        r == spec_edge_permutation(cube@),
        r <= 24,
{
    let mut count: usize = 0;
    let mut k: usize = 0;
    while k < 24
        invariant
            k <= 24,
            cube.wf(),
            count <= k,
            count == edge_perm_upto(cube@, k as int),
        decreases 24 - k,
    {
        let pair = edge_pair(k);
        if cube.state[pair.0] != (pair.0 / 9) as u8 || cube.state[pair.1] != (pair.1 / 9) as u8 {
            count = count + 1;
        }
        k = k + 1;
    }
    count
}

/// Estimator: number of sampled corner triples holding, at any position, a
/// color that does not belong to the face the position lies on.
pub fn corner_permutation_heuristic(cube: &Cube) -> (r: usize)
    requires
        cube.wf(),
    ensures
        r == spec_corner_permutation(cube@),
        r <= 24,
{
    let mut count: usize = 0;
    let mut k: usize = 0;
    while k < 24
        invariant
            k <= 24,
            cube.wf(),
            count <= k,
            count == corner_perm_upto(cube@, k as int),
        decreases 24 - k,
    {
        let t = corner_triple(k);
        let ok = cube.state[t.0] == (t.0 / 9) as u8 && cube.state[t.1] == (t.1 / 9) as u8
            && cube.state[t.2] == (t.2 / 9) as u8;
        if !ok {
            count = count + 1;
        }
        k = k + 1;
    }
    count
}

/// Estimator: parity of the number of inversions in the facelet sequence
/// read as a linear order.
pub fn parity_heuristic(cube: &Cube) -> (r: usize)
    requires
        cube.wf(),
    ensures
        r == spec_parity(cube@),
        r <= 1,
{
    let mut inversions: usize = 0;
    let mut i: usize = 0;
    while i < 54
        invariant
            i <= 54,
            cube.wf(),
            inversions <= 54 * i,
            inversions == inversions_upto(cube@, i as int),
        decreases 54 - i,
    {
        let mut inner: usize = 0;
        let mut j: usize = i + 1;
        proof {
            lemma_inversions_with_prefix_zero(cube@, i as int, (i + 1) as int);
        }
        while j < 54
            invariant
                i < 54,
                cube.wf(),
                i + 1 <= j <= 54,
                inner <= j,
                inner == inversions_with(cube@, i as int, j as int),
            decreases 54 - j,
        {
            if cube.state[i] > cube.state[j] {
                inner = inner + 1;
            }
            j = j + 1;
        }
        inversions = inversions + inner;
        i = i + 1;
    }
    inversions % 2
}

/// Below `n <= i + 1` no index forms an inversion with `i`.
proof fn lemma_inversions_with_prefix_zero(s: Seq<u8>, i: int, n: int)
    requires
        n <= i + 1,
    ensures
        inversions_with(s, i, n) == 0,
    decreases n,
{
    if n > 0 {
        lemma_inversions_with_prefix_zero(s, i, n - 1);
    }
}

/// A pattern database: states reachable from the solved configuration within
/// a bounded number of moves, each recorded with its discovery depth. Built
/// once and never mutated afterward.
pub struct PatternDB {
    pub data: Vec<(Cube, usize)>,
}

/// Every entry holds a well-formed state, no state is recorded twice, and no
/// recorded depth exceeds the fixed bound of 7.
pub open spec fn entries_wf(es: Seq<(Cube, usize)>) -> bool {
    (forall|k: int| 0 <= k < es.len() ==> (#[trigger] es[k]).0.wf() && es[k].1 <= 7) && (forall|
        k1: int,
        k2: int,
    |
        0 <= k1 < k2 < es.len() ==> (#[trigger] es[k1]).0@ != (#[trigger] es[k2]).0@)
}

/// Whether some entry records the state `s`.
pub open spec fn entries_contain(es: Seq<(Cube, usize)>, s: Seq<u8>) -> bool {
    exists|k: int| 0 <= k < es.len() && (#[trigger] es[k]).0@ == s
}

/// The index of the entry recording `s`.
pub open spec fn entries_index_of(es: Seq<(Cube, usize)>, s: Seq<u8>) -> int {
    choose|k: int| 0 <= k < es.len() && (#[trigger] es[k]).0@ == s
}

/// The depth recorded for the state `s`.
pub open spec fn entries_depth(es: Seq<(Cube, usize)>, s: Seq<u8>) -> usize {
    es[entries_index_of(es, s)].1
}

/// With unique keys, the entry at index `k` is the one a lookup of its state
/// finds.
proof fn lemma_entries_depth_at(es: Seq<(Cube, usize)>, k: int)
    requires
        entries_wf(es),
        0 <= k < es.len(),
    ensures
        entries_contain(es, es[k].0@),
        entries_index_of(es, es[k].0@) == k,
        entries_depth(es, es[k].0@) == es[k].1,
{
    assert(entries_contain(es, es[k].0@));
    let k2 = entries_index_of(es, es[k].0@);
    assert(0 <= k2 < es.len() && es[k2].0@ == es[k].0@);
    if k2 < k {
        assert(es[k2].0@ != es[k].0@);
    } else if k2 > k {
        assert(es[k].0@ != es[k2].0@);
    }
}

/// Linear lookup of a state among the recorded entries.
fn lookup_depth(data: &Vec<(Cube, usize)>, cube: &Cube) -> (r: Option<usize>)
    requires
        entries_wf(data@),
    ensures
        entries_contain(data@, cube@) ==> (r matches Some(d) && d == entries_depth(data@, cube@)),
        !entries_contain(data@, cube@) ==> r is None,
{
    let mut k: usize = 0;
    while k < data.len()
        invariant
            k <= data@.len(),
            entries_wf(data@),
            forall|j: int| 0 <= j < k ==> (#[trigger] data@[j]).0@ != cube@,
        decreases data@.len() - k,
    {
        if cube_eq(&data[k].0, cube) {
            proof {
                lemma_entries_depth_at(data@, k as int);
            }
            return Some(data[k].1);
        }
        k = k + 1;
    }
    None
}

/// `s` is reached from the solved state by some sequence of exactly `n`
/// moves.
pub open spec fn reachable_in(s: Seq<u8>, n: int) -> bool {
    exists|ms: Seq<(Face, RotationDirection)>|
        ms.len() == n && #[trigger] apply_moves(solved_state(), ms) == s
}

/// The state one table move away from `t`.
spec fn child_of(t: Seq<u8>, m: int) -> Seq<u8> {
    rotated(t, crate::cube::spec_move_at(m).0, crate::cube::spec_move_at(m).1)
}

/// Appending an entry to a well-formed entry list keeps every recorded state
/// recorded at its old depth.
proof fn lemma_entries_push_all(es: Seq<(Cube, usize)>, e: (Cube, usize))
    requires
        entries_wf(es.push(e)),
    ensures
        entries_wf(es),
        forall|s: Seq<u8>| #[trigger]
            entries_contain(es, s) ==> entries_contain(es.push(e), s) && entries_depth(
                es.push(e),
                s,
            ) == entries_depth(es, s),
{
    let es2 = es.push(e);
    assert(entries_wf(es)) by {
        assert forall|k: int| 0 <= k < es.len() implies (#[trigger] es[k]).0.wf() && es[k].1
            <= 7 by {
            assert(es2[k] == es[k]);
        }
        assert forall|k1: int, k2: int| 0 <= k1 < k2 < es.len() implies (#[trigger] es[k1]).0@ != (
        #[trigger] es[k2]).0@ by {
            assert(es2[k1] == es[k1] && es2[k2] == es[k2]);
        }
    }
    assert forall|s: Seq<u8>| #[trigger] entries_contain(es, s) implies entries_contain(es2, s)
        && entries_depth(es2, s) == entries_depth(es, s) by {
        let k = entries_index_of(es, s);
        assert(0 <= k < es.len() && es[k].0@ == s);
        assert(es2[k] == es[k]);
        lemma_entries_depth_at(es, k);
        lemma_entries_depth_at(es2, k);
    }
}

impl PatternDB {
    /// Well-formed: entries are well-formed states, recorded once each, at
    /// depths bounded by 7.
    pub open spec fn wf(self) -> bool {
        entries_wf(self.data@)
    }

    /// Whether the database records the state `s`.
    pub open spec fn contains_state(self, s: Seq<u8>) -> bool {
        entries_contain(self.data@, s)
    }

    /// The depth recorded for the state `s`.
    pub open spec fn depth_of(self, s: Seq<u8>) -> usize {
        entries_depth(self.data@, s)
    }

    /// Breadth-first exploration from the solved state, recording each
    /// first-seen state at its discovery depth, stopped after `depth_bound`
    /// levels. Only first discoveries are recorded, and every state within
    /// `depth_bound` moves of solved is discovered, so each recorded depth
    /// is exactly the minimal number of moves that reaches the state.
    #[verifier::rlimit(100)]
    pub fn generate_pdb_to_depth(depth_bound: usize) -> (r: PatternDB)
        requires
            depth_bound <= 7,
        ensures
            r.wf(),
            r.contains_state(solved_state()),
            r.depth_of(solved_state()) == 0,
            forall|s: Seq<u8>| #[trigger] r.contains_state(s) ==> r.depth_of(s) <= depth_bound,
            forall|s: Seq<u8>| #[trigger]
                r.contains_state(s) ==> reachable_in(s, r.depth_of(s) as int),
            forall|s: Seq<u8>, n: int|
                0 <= n <= depth_bound && #[trigger] reachable_in(s, n) ==> r.contains_state(s)
                    && r.depth_of(s) <= n,
    {
        let solved = Cube { state: default_state() };
        let mut data: Vec<(Cube, usize)> = Vec::new();
        let mut frontier: Vec<Cube> = Vec::new();
        proof {
            let empty = Seq::<(Face, RotationDirection)>::empty();
            assert(apply_moves(solved_state(), empty) == solved_state());
            assert(reachable_in(solved_state(), 0));
        }
        data.push((solved.clone(), 0));
        frontier.push(solved);
        proof {
            lemma_entries_depth_at(data@, 0);
            assert forall|s: Seq<u8>, n: int|
                0 <= n <= 0 && #[trigger] reachable_in(s, n) implies entries_contain(data@, s)
                && entries_depth(data@, s) <= 0 by {
                let ms = choose|ms: Seq<(Face, RotationDirection)>|
                    ms.len() == n && #[trigger] apply_moves(solved_state(), ms) == s;
                assert(ms =~= Seq::<(Face, RotationDirection)>::empty());
                assert(apply_moves(solved_state(), ms) == solved_state());
            }
            assert(frontier@[0]@ == data@[0].0@);
        }
        let mut level: usize = 0;
        while level < depth_bound
            invariant
                level <= depth_bound,
                depth_bound <= 7,
                entries_wf(data@),
                data@.len() >= 1,
                data@[0].0@ == solved_state(),
                data@[0].1 == 0,
                forall|k: int| 0 <= k < data@.len() ==> (#[trigger] data@[k]).1 <= level,
                forall|k: int|
                    0 <= k < data@.len() ==> reachable_in(
                        (#[trigger] data@[k]).0@,
                        data@[k].1 as int,
                    ),
                forall|j: int| 0 <= j < frontier@.len() ==> (#[trigger] frontier@[j]).wf(),
                forall|j: int|
                    0 <= j < frontier@.len() ==> reachable_in(
                        (#[trigger] frontier@[j])@,
                        level as int,
                    ),
                forall|k: int|
                    0 <= k < data@.len() && (#[trigger] data@[k]).1 == level ==> exists|j: int|
                        0 <= j < frontier@.len() && (#[trigger] frontier@[j])@ == data@[k].0@,
                forall|s: Seq<u8>, n: int|
                    0 <= n <= level && #[trigger] reachable_in(s, n) ==> entries_contain(data@, s)
                        && entries_depth(data@, s) <= n,
            decreases depth_bound - level,
        {
            let mut next: Vec<Cube> = Vec::new();
            let mut fi: usize = 0;
            while fi < frontier.len()
                invariant
                    fi <= frontier@.len(),
                    level < depth_bound,
                    depth_bound <= 7,
                    entries_wf(data@),
                    data@.len() >= 1,
                    data@[0].0@ == solved_state(),
                    data@[0].1 == 0,
                    forall|k: int| 0 <= k < data@.len() ==> (#[trigger] data@[k]).1 <= level + 1,
                    forall|k: int|
                        0 <= k < data@.len() ==> reachable_in(
                            (#[trigger] data@[k]).0@,
                            data@[k].1 as int,
                        ),
                    forall|j: int| 0 <= j < frontier@.len() ==> (#[trigger] frontier@[j]).wf(),
                    forall|j: int|
                        0 <= j < frontier@.len() ==> reachable_in(
                            (#[trigger] frontier@[j])@,
                            level as int,
                        ),
                    forall|j: int| 0 <= j < next@.len() ==> (#[trigger] next@[j]).wf(),
                    forall|j: int|
                        0 <= j < next@.len() ==> reachable_in((#[trigger] next@[j])@, level + 1),
                    forall|k: int|
                        0 <= k < data@.len() && (#[trigger] data@[k]).1 == level ==> exists|j: int|
                            0 <= j < frontier@.len() && (#[trigger] frontier@[j])@ == data@[k].0@,
                    forall|k: int|
                        0 <= k < data@.len() && (#[trigger] data@[k]).1 == level + 1 ==> exists|
                            j: int,
                        | 0 <= j < next@.len() && (#[trigger] next@[j])@ == data@[k].0@,
                    forall|s: Seq<u8>, n: int|
                        0 <= n <= level && #[trigger] reachable_in(s, n) ==> entries_contain(
                            data@,
                            s,
                        ) && entries_depth(data@, s) <= n,
                    forall|j: int, m: int|
                        0 <= j < fi && 0 <= m < 18 ==> entries_contain(
                            data@,
                            #[trigger] child_of(frontier@[j]@, m),
                        ) && entries_depth(data@, child_of(frontier@[j]@, m)) <= level + 1,
                decreases frontier@.len() - fi,
            {
                let mut mi: usize = 0;
                while mi < 18
                    invariant
                        mi <= 18,
                        fi < frontier@.len(),
                        level < depth_bound,
                        depth_bound <= 7,
                        entries_wf(data@),
                        data@.len() >= 1,
                        data@[0].0@ == solved_state(),
                        data@[0].1 == 0,
                        forall|k: int|
                            0 <= k < data@.len() ==> (#[trigger] data@[k]).1 <= level + 1,
                        forall|k: int|
                            0 <= k < data@.len() ==> reachable_in(
                                (#[trigger] data@[k]).0@,
                                data@[k].1 as int,
                            ),
                        forall|j: int| 0 <= j < frontier@.len() ==> (#[trigger] frontier@[j]).wf(),
                        forall|j: int|
                            0 <= j < frontier@.len() ==> reachable_in(
                                (#[trigger] frontier@[j])@,
                                level as int,
                            ),
                        forall|j: int| 0 <= j < next@.len() ==> (#[trigger] next@[j]).wf(),
                        forall|j: int|
                            0 <= j < next@.len() ==> reachable_in(
                                (#[trigger] next@[j])@,
                                level + 1,
                            ),
                        forall|k: int|
                            0 <= k < data@.len() && (#[trigger] data@[k]).1 == level ==> exists|
                                j: int,
                            | 0 <= j < frontier@.len() && (#[trigger] frontier@[j])@
                                == data@[k].0@,
                        forall|k: int|
                            0 <= k < data@.len() && (#[trigger] data@[k]).1 == level + 1
                                ==> exists|j: int|
                                0 <= j < next@.len() && (#[trigger] next@[j])@ == data@[k].0@,
                        forall|s: Seq<u8>, n: int|
                            0 <= n <= level && #[trigger] reachable_in(s, n) ==> entries_contain(
                                data@,
                                s,
                            ) && entries_depth(data@, s) <= n,
                        forall|j: int, m: int|
                            0 <= j < fi && 0 <= m < 18 ==> entries_contain(
                                data@,
                                #[trigger] child_of(frontier@[j]@, m),
                            ) && entries_depth(data@, child_of(frontier@[j]@, m)) <= level + 1,
                        forall|m: int|
                            0 <= m < mi ==> entries_contain(
                                data@,
                                #[trigger] child_of(frontier@[fi as int]@, m),
                            ) && entries_depth(data@, child_of(frontier@[fi as int]@, m)) <= level
                                + 1,
                    decreases 18 - mi,
                {
                    let mv = move_at(mi);
                    let child = frontier[fi].apply_move(mv.0, mv.1);
                    proof {
                        assert(child_of(frontier@[fi as int]@, mi as int) == child@);
                    }
                    let found = lookup_depth(&data, &child);
                    if found.is_none() {
                        proof {
                            let msp = choose|msp: Seq<(Face, RotationDirection)>|
                                msp.len() == level as int && #[trigger] apply_moves(
                                    solved_state(),
                                    msp,
                                ) == frontier@[fi as int]@;
                            lemma_apply_moves_push(solved_state(), msp, mv);
                            assert(apply_moves(solved_state(), msp.push(mv)) == child@);
                            assert(reachable_in(child@, level + 1));
                        }
                        let cloned = child.clone();
                        let ghost pre = data@;
                        let ghost npre = next@;
                        let ghost e: (Cube, usize) = (cloned, (level + 1) as usize);
                        data.push((cloned, level + 1));
                        next.push(child);
                        proof {
                            assert(data@ == pre.push(e));
                            assert(e.0@ == child_of(frontier@[fi as int]@, mi as int));
                            assert forall|k1: int, k2: int|
                                0 <= k1 < k2 < data@.len() implies (#[trigger] data@[k1]).0@ != (
                            #[trigger] data@[k2]).0@ by {
                                if k2 == data@.len() - 1 {
                                    assert(data@[k1] == pre[k1]);
                                    assert(!entries_contain(pre, e.0@));
                                } else {
                                    assert(data@[k1] == pre[k1] && data@[k2] == pre[k2]);
                                }
                            }
                            assert forall|k: int| 0 <= k < data@.len() implies (#[trigger] data@[
                            k]).0.wf() && data@[k].1 <= 7 by {
                                if k < data@.len() - 1 {
                                    assert(data@[k] == pre[k]);
                                }
                            }
                            assert(entries_wf(data@));
                            lemma_entries_push_all(pre, e);
                            lemma_entries_depth_at(data@, data@.len() - 1);
                            assert(next@[next@.len() - 1]@ == e.0@);
                            assert forall|k: int|
                                0 <= k < data@.len() && (#[trigger] data@[k]).1 == level
                                    + 1 implies exists|j: int|
                                0 <= j < next@.len() && (#[trigger] next@[j])@
                                    == data@[k].0@ by {
                                if k < pre.len() {
                                    assert(data@[k] == pre[k]);
                                    let j = choose|j: int|
                                        0 <= j < npre.len() && (#[trigger] npre[j])@
                                            == pre[k].0@;
                                    assert(next@[j] == npre[j]);
                                    assert((next@[j])@ == data@[k].0@);
                                } else {
                                    assert((next@[next@.len() - 1])@ == data@[k].0@);
                                }
                            }
                        }
                    } else {
                        proof {
                            let k = entries_index_of(data@, child@);
                            assert(0 <= k < data@.len() && data@[k].0@ == child@);
                            assert(entries_depth(data@, child@) <= level + 1);
                        }
                    }
                    mi = mi + 1;
                }
                fi = fi + 1;
            }
            proof {
                assert forall|s: Seq<u8>, n: int|
                    0 <= n <= level + 1 && #[trigger] reachable_in(s, n) implies entries_contain(
                    data@,
                    s,
                ) && entries_depth(data@, s) <= n by {
                    if n > level {
                        let ms = choose|ms: Seq<(Face, RotationDirection)>|
                            ms.len() == n && #[trigger] apply_moves(solved_state(), ms) == s;
                        let dl = ms.drop_last();
                        let last = ms.last();
                        assert(ms =~= dl.push(last));
                        lemma_apply_moves_push(solved_state(), dl, last);
                        let t = apply_moves(solved_state(), dl);
                        assert(rotated(t, last.0, last.1) == s);
                        assert(reachable_in(t, level as int));
                        crate::cube::lemma_move_index(last.0, last.1);
                        let m0 = crate::cube::move_index(last.0, last.1);
                        assert(child_of(t, m0) == s);
                        assert(entries_contain(data@, t) && entries_depth(data@, t) <= level);
                        let k = entries_index_of(data@, t);
                        assert(0 <= k < data@.len() && data@[k].0@ == t);
                        lemma_entries_depth_at(data@, k);
                        let d = data@[k].1;
                        if d == level {
                            let j = choose|j: int|
                                0 <= j < frontier@.len() && (#[trigger] frontier@[j])@
                                    == data@[k].0@;
                            assert(entries_contain(
                                data@,
                                child_of(frontier@[j]@, m0),
                            ));
                            assert(entries_depth(data@, child_of(frontier@[j]@, m0)) <= level
                                + 1);
                        } else {
                            assert(reachable_in(t, d as int));
                            let mt = choose|mt: Seq<(Face, RotationDirection)>|
                                mt.len() == d as int && #[trigger] apply_moves(
                                    solved_state(),
                                    mt,
                                ) == t;
                            lemma_apply_moves_push(solved_state(), mt, last);
                            assert(apply_moves(solved_state(), mt.push(last)) == s);
                            assert(reachable_in(s, d + 1));
                        }
                    }
                }
            }
            frontier = next;
            level = level + 1;
        }
        let r = PatternDB { data };
        proof {
            lemma_entries_depth_at(r.data@, 0);
            assert forall|s: Seq<u8>| #[trigger] r.contains_state(s) implies r.depth_of(s)
                <= depth_bound && reachable_in(s, r.depth_of(s) as int) by {
                let k = entries_index_of(r.data@, s);
                assert(0 <= k < r.data@.len() && r.data@[k].0@ == s);
                assert(r.data@[k].1 <= depth_bound);
                assert(reachable_in(r.data@[k].0@, r.data@[k].1 as int));
            }
        }
        r
    }

    /// Builds the database out to the fixed depth bound of 7.
    pub fn generate_pdb() -> (r: PatternDB)
        ensures
            r.wf(),
            r.contains_state(solved_state()),
            r.depth_of(solved_state()) == 0,
            forall|s: Seq<u8>| #[trigger] r.contains_state(s) ==> r.depth_of(s) <= 7,
            forall|s: Seq<u8>| #[trigger]
                r.contains_state(s) ==> reachable_in(s, r.depth_of(s) as int),
            forall|s: Seq<u8>, n: int|
                0 <= n <= 7 && #[trigger] reachable_in(s, n) ==> r.contains_state(s)
                    && r.depth_of(s) <= n,
    {
        Self::generate_pdb_to_depth(7)
    }
}

/// Builds the pattern database used by the combined heuristic. The value is
/// immutable once built; a caller that wants it process-wide builds it once
/// and shares it for the rest of the process's lifetime.
pub fn get_pdb() -> (r: PatternDB)
    ensures
        r.wf(),
        r.contains_state(solved_state()),
        r.depth_of(solved_state()) == 0,
        forall|s: Seq<u8>| #[trigger] r.contains_state(s) ==> r.depth_of(s) <= 7,
        forall|s: Seq<u8>| #[trigger] r.contains_state(s) ==> reachable_in(s, r.depth_of(s) as int),
        forall|s: Seq<u8>, n: int|
            0 <= n <= 7 && #[trigger] reachable_in(s, n) ==> r.contains_state(s) && r.depth_of(s)
                <= n,
{
    PatternDB::generate_pdb()
}

/// Estimator value drawn from the pattern database: the recorded depth when
/// the state is present, else the fixed default of 10.
pub open spec fn pdb_estimate(db: PatternDB, s: Seq<u8>) -> int {
    if db.contains_state(s) {
        db.depth_of(s) as int
    } else {
        10
    }
}

/// Estimator: the state's recorded breadth-first depth, or the fixed default
/// of 10 for states absent from the database.
pub fn heuristic_pdb(cube: &Cube, db: &PatternDB) -> (r: usize)
    requires
        db.wf(),
    ensures
        r == pdb_estimate(*db, cube@),
        db.contains_state(cube@) ==> r == db.depth_of(cube@),
        !db.contains_state(cube@) ==> r == 10,
        r <= 10,
{
    match lookup_depth(&db.data, cube) {
        Some(d) => {
            proof {
                let k = entries_index_of(db.data@, cube@);
                assert(0 <= k < db.data@.len());
                assert(db.data@[k].1 <= 7);
            }
            d
        },
        None => 10,
    }
}

/// Division by the block size keeps `9 * m + c` in group `m` for offsets
/// within one block.
proof fn lemma_block_div(m: int, c: int)
    requires
        0 <= c < 9,
    ensures
        (9 * m + c) / 9 == m,
{
    vstd::arithmetic::div_mod::lemma_div_multiples_vanish_fancy(m, c, 9);
}

proof fn lemma_solved_misplaced(n: int)
    requires
        0 <= n <= 54,
    ensures
        misplaced_upto(solved_state(), n) == 0,
    decreases n,
{
    if n > 0 {
        lemma_solved_misplaced(n - 1);
    }
}

proof fn lemma_solved_manhattan(n: int)
    requires
        0 <= n <= 54,
    ensures
        manhattan_upto(solved_state(), n) == 0,
    decreases n,
{
    if n > 0 {
        lemma_solved_manhattan(n - 1);
        assert(0 <= (n - 1) / 9 < 6);
        assert(facelet_distance(solved_state(), n - 1) == 0);
    }
}

proof fn lemma_solved_face_uniform(f: int)
    requires
        0 <= f < 6,
    ensures
        face_uniform(solved_state(), f),
{
    assert forall|j: int| 9 * f <= j < 9 * f + 9 implies #[trigger] solved_state()[j]
        == solved_state()[9 * f] by {
        lemma_block_div(f, j - 9 * f);
        lemma_block_div(f, 0);
        assert(j / 9 == f);
        assert((9 * f) / 9 == f);
    }
}

proof fn lemma_solved_unfinished(n: int)
    requires
        0 <= n <= 6,
    ensures
        unfinished_upto(solved_state(), n) == 0,
    decreases n,
{
    if n > 0 {
        lemma_solved_unfinished(n - 1);
        lemma_solved_face_uniform(n - 1);
    }
}

/// On the solved state, all four counters over the sampled edge pairs and
/// corner triples are zero below `n`.
proof fn lemma_solved_edges_corners(n: int)
    requires
        0 <= n <= 24,
    ensures
        mismatched_edges_upto(solved_state(), n) == 0,
        edge_orient_upto(solved_state(), n) == 0,
        corner_orient_upto(solved_state(), n) == 0,
        edge_perm_upto(solved_state(), n) == 0,
        corner_perm_upto(solved_state(), n) == 0,
    decreases n,
{
    if n > 0 {
        lemma_solved_edges_corners(n - 1);
        let k = n - 1;
        let m = k / 4;
        assert(0 <= m < 6);
        lemma_block_div(m, edge_a(k) - 9 * m);
        lemma_block_div(m, edge_b(k) - 9 * m);
        lemma_block_div(m, corner_a(k) - 9 * m);
        lemma_block_div(m, corner_b(k) - 9 * m);
        lemma_block_div(m, corner_c(k) - 9 * m);
        assert(solved_state()[edge_a(k)] == expected_color(edge_a(k)));
        assert(solved_state()[edge_b(k)] == expected_color(edge_b(k)));
        assert(corner_matches(solved_state(), k));
    }
}

proof fn lemma_solved_inversions_with(i: int, n: int)
    requires
        0 <= i < 54,
        0 <= n <= 54,
    ensures
        inversions_with(solved_state(), i, n) == 0,
    decreases n,
{
    if n > 0 {
        lemma_solved_inversions_with(i, n - 1);
        if i < n - 1 {
            vstd::arithmetic::div_mod::lemma_div_is_ordered(i, n - 1, 9);
            assert(solved_state()[i] <= solved_state()[n - 1]);
        }
    }
}

proof fn lemma_solved_inversions(n: int)
    requires
        0 <= n <= 54,
    ensures
        inversions_upto(solved_state(), n) == 0,
    decreases n,
{
    if n > 0 {
        lemma_solved_inversions(n - 1);
        lemma_solved_inversions_with(n - 1, 54);
    }
}

/// The combined heuristic evaluates to zero on the canonical solved state,
/// for any database that records the solved state at depth zero, as the one
/// built by the breadth-first exploration does.
pub proof fn lemma_combined_heuristic_solved_zero(db: PatternDB)
    requires
        db.wf(),
        db.contains_state(solved_state()),
        db.depth_of(solved_state()) == 0,
    ensures
        spec_combined_heuristic(solved_state(), db) == 0,
{
    lemma_solved_misplaced(54);
    lemma_solved_manhattan(54);
    lemma_solved_unfinished(6);
    lemma_solved_edges_corners(24);
    lemma_solved_inversions(54);
}

proof fn lemma_unfinished_upto_nonneg(s: Seq<u8>, n: int)
    ensures
        unfinished_upto(s, n) >= 0,
    decreases n,
{
    if n > 0 {
        lemma_unfinished_upto_nonneg(s, n - 1);
    }
}

proof fn lemma_unfinished_upto_mono(s: Seq<u8>, m: int, n: int)
    requires
        m <= n,
    ensures
        unfinished_upto(s, m) <= unfinished_upto(s, n),
    decreases n - m,
{
    if m < n {
        lemma_unfinished_upto_mono(s, m, n - 1);
    }
}

/// On any state that is not solved the combined heuristic is strictly
/// positive: some face is not uniform, so the unfinished-face count alone
/// already contributes.
pub proof fn lemma_combined_heuristic_positive(s: Seq<u8>, db: PatternDB)
    requires
        s.len() == 54,
        !crate::cube::is_solved_state(s),
    ensures
        spec_combined_heuristic(s, db) >= 1,
{
    let i = choose|i: int| 0 <= i < 54 && #[trigger] s[i] != s[9 * (i / 9)];
    let f = i / 9;
    assert(0 <= f < 6);
    assert(9 * f <= i < 9 * f + 9) by {
        vstd::arithmetic::div_mod::lemma_fundamental_div_mod(i, 9);
    }
    assert(!face_uniform(s, f));
    assert(unfinished_upto(s, f + 1) == unfinished_upto(s, f) + 1);
    lemma_unfinished_upto_nonneg(s, f);
    lemma_unfinished_upto_mono(s, f + 1, 6);
}

proof fn lemma_misplaced_upto_nonneg(s: Seq<u8>, n: int)
    ensures
        misplaced_upto(s, n) >= 0,
    decreases n,
{
    if n > 0 {
        lemma_misplaced_upto_nonneg(s, n - 1);
    }
}

proof fn lemma_misplaced_upto_mono(s: Seq<u8>, m: int, n: int)
    requires
        m <= n,
    ensures
        misplaced_upto(s, m) <= misplaced_upto(s, n),
    decreases n - m,
{
    if m < n {
        lemma_misplaced_upto_mono(s, m, n - 1);
    }
}

/// A combined heuristic of zero forces the canonical solved state: any
/// facelet holding a color other than its face's makes the misplaced count,
/// and with it the maximum, strictly positive.
pub proof fn lemma_combined_heuristic_zero_canonical(s: Seq<u8>, db: PatternDB)
    requires
        s.len() == 54,
        spec_combined_heuristic(s, db) == 0,
    ensures
        s == solved_state(),
{
    if s != solved_state() {
        assert(!(s =~= solved_state()));
        let i = choose|i: int| 0 <= i < 54 && s[i] != solved_state()[i];
        assert(s[i] != expected_color(i));
        assert(misplaced_upto(s, i + 1) == misplaced_upto(s, i) + 1);
        lemma_misplaced_upto_nonneg(s, i);
        lemma_misplaced_upto_mono(s, i + 1, 54);
        assert(spec_misplaced_stickers(s) >= 1);
        assert(spec_combined_heuristic(s, db) >= 1);
    }
}

/// No recorded depth in a well-formed pattern database exceeds 7.
pub proof fn lemma_pdb_depth_bound(db: PatternDB, s: Seq<u8>)
    requires
        db.wf(),
        db.contains_state(s),
    ensures
        db.depth_of(s) <= 7,
{
    let k = entries_index_of(db.data@, s);
    assert(0 <= k < db.data@.len());
}

/// The larger of two integers.
pub open spec fn max2(a: int, b: int) -> int {
    if a >= b {
        a
    } else {
        b
    }
}

/// The combined estimate: the maximum of the ten estimators.
pub open spec fn spec_combined_heuristic(s: Seq<u8>, db: PatternDB) -> int {
    max2(
        max2(
            max2(
                max2(
                    max2(
                        max2(
                            max2(
                                max2(
                                    max2(spec_misplaced_stickers(s), spec_manhattan_distance(s)),
                                    spec_unfinished_faces(s),
                                ),
                                spec_misplaced_edges(s),
                            ),
                            spec_edge_orientation(s),
                        ),
                        spec_corner_orientation(s),
                    ),
                    spec_edge_permutation(s),
                ),
                spec_corner_permutation(s),
            ),
            spec_parity(s),
        ),
        pdb_estimate(db, s),
    )
}

/// Computes the ten estimators and returns their maximum. The value never
/// exceeds 13986: each facelet contributes at most 2 + 2 + 255 to the
/// pseudo-Manhattan sum, which dominates every other estimator.
pub fn combined_heuristic(cube: &Cube, db: &PatternDB) -> (r: usize)
    requires
        cube.wf(),
        db.wf(),
    ensures
        r == spec_combined_heuristic(cube@, *db),
        r <= 13986,
{
    let mut best = misplaced_stickers(cube);
    let v2 = manhattan_distance(cube);
    if v2 > best {
        best = v2;
    }
    let v3 = unfinished_faces(cube);
    if v3 > best {
        best = v3;
    }
    let v4 = misplaced_edges(cube);
    if v4 > best {
        best = v4;
    }
    let v5 = edge_orientation_heuristic(cube);
    if v5 > best {
        best = v5;
    }
    let v6 = corner_orientation_heuristic(cube);
    if v6 > best {
        best = v6;
    }
    let v7 = edge_permutation_heuristic(cube);
    if v7 > best {
        best = v7;
    }
    let v8 = corner_permutation_heuristic(cube);
    if v8 > best {
        best = v8;
    }
    let v9 = parity_heuristic(cube);
    if v9 > best {
        best = v9;
    }
    let v10 = heuristic_pdb(cube, db);
    if v10 > best {
        best = v10;
    }
    best
}

} // verus!
