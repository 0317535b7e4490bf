//! Iterative-deepening A* search for a solving move sequence.
//!
//! The outer loop raises a cost bound derived from the combined heuristic;
//! each iteration runs a bounded depth-first search that explores the 18
//! legal moves in ascending heuristic order, skips a second consecutive turn
//! of the same face, and never revisits a state already seen in the current
//! iteration (states stay marked when the search backtracks; the contract
//! states that the visited list only grows). A hard recursion cap of 5 moves
//! applies regardless of the bound, so the search may legitimately report no
//! solution for scrambles that need deeper sequences.

use vstd::prelude::*;
use vstd::multiset::Multiset;

use crate::cube::Cube;
use crate::cube::Face;
use crate::cube::RotationDirection;
use crate::cube::apply_moves;
use crate::cube::cube_eq;
use crate::cube::is_solved_state;
use crate::cube::move_at;
use crate::cube::rotated;
use crate::cube::solved_state;
use crate::cube::spec_move_at;
use crate::heuristic::PatternDB;
use crate::heuristic::combined_heuristic;
use crate::heuristic::lemma_combined_heuristic_positive;
use crate::heuristic::lemma_combined_heuristic_solved_zero;
use crate::heuristic::lemma_combined_heuristic_zero_canonical;
use crate::heuristic::spec_combined_heuristic;

verus! {

/// Whether some cube in `cs` carries the facelet sequence `s`.
pub open spec fn contains_cube_state(cs: Seq<Cube>, s: Seq<u8>) -> bool {
    exists|k: int| 0 <= k < cs.len() && (#[trigger] cs[k])@ == s
}

/// No two consecutive moves of the sequence turn the same face.
pub open spec fn no_consecutive_same_face(ms: Seq<(Face, RotationDirection)>) -> bool {
    forall|i: int| 0 <= i < ms.len() - 1 ==> (#[trigger] ms[i]).0 != ms[i + 1].0
}

proof fn lemma_prefix_refl<T>(a: Seq<T>)
    ensures
        a.is_prefix_of(a),
{
    assert(a =~= a.subrange(0, a.len() as int));
}

proof fn lemma_prefix_chain<T>(a: Seq<T>, b: Seq<T>, c: Seq<T>)
    requires
        a.is_prefix_of(b),
        b.is_prefix_of(c),
    ensures
        a.is_prefix_of(c),
{
    assert(a =~= c.subrange(0, a.len() as int));
}

/// Linear scan of the visited list for a state.
fn contains_cube(cs: &Vec<Cube>, c: &Cube) -> (r: bool)
    ensures
        r == contains_cube_state(cs@, c@),
{
    let mut k: usize = 0;
    while k < cs.len()
        invariant
            k <= cs@.len(),
            forall|j: int| 0 <= j < k ==> (#[trigger] cs@[j])@ != c@,
        decreases cs@.len() - k,
    {
        if cube_eq(&cs[k], c) {
            return true;
        }
        k = k + 1;
    }
    false
}

/// Candidate order: by heuristic value, ties broken by move-table index, so
/// exploration order is deterministic.
pub open spec fn lex_le(a: (usize, usize), b: (usize, usize)) -> bool {
    a.0 < b.0 || (a.0 == b.0 && a.1 <= b.1)
}

pub open spec fn sorted_lex(s: Seq<(usize, usize)>) -> bool {
    forall|i: int, j: int| 0 <= i < j < s.len() ==> lex_le(#[trigger] s[i], #[trigger] s[j])
}

/// Sorts the move candidates ascending by heuristic value, ties broken by
/// move-table index; the result holds exactly the input entries.
fn sort_candidates(v: &mut Vec<(usize, usize)>)
    ensures
        final(v)@.len() == old(v)@.len(),
        sorted_lex(final(v)@),
        final(v)@.to_multiset() == old(v)@.to_multiset(),
        forall|x: (usize, usize)| #[trigger] final(v)@.contains(x) ==> old(v)@.contains(x),
        forall|x: (usize, usize)| #[trigger] old(v)@.contains(x) ==> final(v)@.contains(x),
{
    broadcast use vstd::seq_lib::group_seq_properties;

    let mut out: Vec<(usize, usize)> = Vec::new();
    while v.len() > 0
        invariant
            out@.to_multiset().add(v@.to_multiset()) == old(v)@.to_multiset(),
            sorted_lex(out@),
            forall|a: int, b: int|
                0 <= a < out@.len() && 0 <= b < v@.len() ==> lex_le(
                    #[trigger] out@[a],
                    #[trigger] v@[b],
                ),
        decreases v@.len(),
    {
        let mut m: usize = 0;
        let mut t: usize = 1;
        while t < v.len()
            invariant
                v@.len() > 0,
                1 <= t <= v@.len(),
                m < t,
                forall|b: int| 0 <= b < t ==> lex_le(v@[m as int], #[trigger] v@[b]),
            decreases v@.len() - t,
        {
            if v[t].0 < v[m].0 || (v[t].0 == v[m].0 && v[t].1 < v[m].1) {
                m = t;
            }
            t = t + 1;
        }
        let ghost vpre = v@;
        let ghost outpre = out@;
        let e = v.remove(m);
        out.push(e);
        proof {
            vpre.to_multiset_ensures();
            outpre.to_multiset_ensures();
            assert(vpre.contains(e));
            assert(v@.to_multiset() =~= vpre.to_multiset().remove(e));
            assert(out@.to_multiset() =~= outpre.to_multiset().insert(e));
            assert(out@.to_multiset().add(v@.to_multiset()) =~= outpre.to_multiset().add(
                vpre.to_multiset(),
            ));
            assert forall|a: int, b: int|
                0 <= a < out@.len() && 0 <= b < v@.len() implies lex_le(out@[a], v@[b]) by {
                assert(v@[b] == if b < m {
                    vpre[b]
                } else {
                    vpre[b + 1]
                });
            }
        }
    }
    proof {
        out@.to_multiset_ensures();
        old(v)@.to_multiset_ensures();
        assert(v@.to_multiset() =~= Multiset::<(usize, usize)>::empty());
        assert(out@.to_multiset() =~= old(v)@.to_multiset());
        assert(out@.to_multiset().len() == out@.len());
        assert(old(v)@.to_multiset().len() == old(v)@.len());
        assert forall|x: (usize, usize)| #[trigger] out@.contains(x) implies old(
            v,
        )@.contains(x) by {
            assert(out@.to_multiset().count(x) > 0);
        }
        assert forall|x: (usize, usize)| #[trigger] old(v)@.contains(x) implies out@.contains(
            x,
        ) by {
            assert(old(v)@.to_multiset().count(x) > 0);
        }
    }
    *v = out;
}

/// Conditions under which the bounded search is obliged to succeed with one
/// move: the depth cap and the bound leave room for one more move, the path
/// context is empty, the state itself is not solved but the canonical solved
/// state is one table move away and not blocked by the visited list, and the
/// database records solved at depth zero (so the solved child's heuristic is
/// zero and it sorts first).
pub open spec fn one_move_win(
    cube: Cube,
    g: usize,
    bound: usize,
    path: Seq<(Face, RotationDirection)>,
    visited: Seq<Cube>,
    depth_limit: usize,
    db: PatternDB,
) -> bool {
    &&& g < depth_limit
    &&& g + spec_combined_heuristic(cube@, db) <= bound
    &&& g + 1 <= bound
    &&& !is_solved_state(cube@)
    &&& path.len() == 0
    &&& !contains_cube_state(visited, solved_state())
    &&& db.contains_state(solved_state())
    &&& db.depth_of(solved_state()) == 0
    &&& exists|k: int|
        0 <= k < 18 && #[trigger] rotated(cube@, spec_move_at(k).0, spec_move_at(k).1)
            == solved_state()
}

/// Bounded best-first depth-first search. Appends moves to `path` while
/// exploring; on success the appended suffix, replayed from `cube`, reaches
/// a solved state within the depth cap, and keeps the no-two-consecutive-
/// turns-of-one-face discipline. On failure `path` is left exactly as it
/// was. Above the depth cap the result is the no-solution sentinel
/// `usize::MAX`; a cost estimate above the bound is returned as is; the
/// visited list only ever grows (a state stays marked when the search
/// backtracks out of it). When the canonical solved state is one move away
/// and nothing blocks that move, the search is obliged to find it.
#[verifier::rlimit(100)]
pub fn search(
    cube: &Cube,
    g: usize,
    bound: usize,
    path: &mut Vec<(Face, RotationDirection)>,
    visited: &mut Vec<Cube>,
    depth_limit: usize,
    db: &PatternDB,
) -> (r: usize)
    requires
        cube.wf(),
        db.wf(),
        depth_limit <= 100000,
    ensures
        r == 0 ==> old(path)@.is_prefix_of(final(path)@) && is_solved_state(
            apply_moves(
                cube@,
                final(path)@.subrange(old(path)@.len() as int, final(path)@.len() as int),
            ),
        ) && final(path)@.len() - old(path)@.len() <= depth_limit - g,
        r != 0 ==> final(path)@ == old(path)@,
        r == 0 || r == usize::MAX || (bound < r && r <= depth_limit + 13986),
        (g <= depth_limit && g + spec_combined_heuristic(cube@, *db) <= bound && is_solved_state(
            cube@,
        )) ==> (r == 0 && final(path)@ == old(path)@),
        g > depth_limit ==> r == usize::MAX && final(visited)@ == old(visited)@,
        (g <= depth_limit && g + spec_combined_heuristic(cube@, *db) > bound) ==> (r == g
            + spec_combined_heuristic(cube@, *db) && final(visited)@ == old(visited)@),
        old(visited)@.is_prefix_of(final(visited)@),
        (r == 0 && no_consecutive_same_face(old(path)@)) ==> no_consecutive_same_face(
            final(path)@,
        ),
        one_move_win(*cube, g, bound, old(path)@, old(visited)@, depth_limit, *db) ==> (r == 0
            && final(path)@.len() == 1),
    decreases depth_limit + 1 - g,
{
    let ghost path0 = path@;
    let ghost visited0 = visited@;
    let ghost win = one_move_win(*cube, g, bound, path0, visited0, depth_limit, *db);
    if g > depth_limit {
        proof {
            lemma_prefix_refl(visited@);
        }
        return usize::MAX;
    }
    let h = combined_heuristic(cube, db);
    let f = g + h;
    if f > bound {
        proof {
            lemma_prefix_refl(visited@);
        }
        return f;
    }
    if cube.is_solved() {
        proof {
            lemma_prefix_refl(visited@);
            assert(path@.subrange(path0.len() as int, path@.len() as int) =~= Seq::<
                (Face, RotationDirection),
            >::empty());
        }
        return 0;
    }
    let mut cands: Vec<(usize, usize)> = Vec::new();
    let mut mi: usize = 0;
    while mi < 18
        invariant
            mi <= 18,
            cands@.len() == mi,
            cube.wf(),
            db.wf(),
            forall|j: int|
                0 <= j < cands@.len() ==> (#[trigger] cands@[j]).1 == j && cands@[j].0
                    == spec_combined_heuristic(
                    rotated(cube@, spec_move_at(j).0, spec_move_at(j).1),
                    *db,
                ),
        decreases 18 - mi,
    {
        let mv = move_at(mi);
        let child = cube.apply_move(mv.0, mv.1);
        let ch = combined_heuristic(&child, db);
        cands.push((ch, mi));
        mi = mi + 1;
    }
    let ghost pre_sort = cands@;
    sort_candidates(&mut cands);
    let mut min_cost: usize = usize::MAX;
    let mut ci: usize = 0;
    proof {
        lemma_prefix_refl(visited@);
    }
    while ci < cands.len()
        invariant
            ci <= cands@.len(),
            cands@.len() == 18,
            cube.wf(),
            db.wf(),
            g <= depth_limit,
            depth_limit <= 100000,
            g + spec_combined_heuristic(cube@, *db) <= bound,
            path@ == path0,
            path0 == old(path)@,
            visited0 == old(visited)@,
            visited0.is_prefix_of(visited@),
            !is_solved_state(cube@),
            sorted_lex(cands@),
            forall|j: int|
                0 <= j < pre_sort.len() ==> (#[trigger] pre_sort[j]).1 == j && pre_sort[j].0
                    == spec_combined_heuristic(
                    rotated(cube@, spec_move_at(j).0, spec_move_at(j).1),
                    *db,
                ),
            pre_sort.len() == 18,
            forall|x: (usize, usize)| #[trigger] cands@.contains(x) ==> pre_sort.contains(x),
            forall|x: (usize, usize)| #[trigger] pre_sort.contains(x) ==> cands@.contains(x),
            min_cost == usize::MAX || (bound < min_cost && min_cost <= depth_limit + 13986),
            win == one_move_win(*cube, g, bound, path0, visited0, depth_limit, *db),
            win ==> ci == 0 && visited@ == visited0,
        decreases cands@.len() - ci,
    {
        proof {
            assert(cands@.contains(cands@[ci as int]));
            assert(pre_sort.contains(cands@[ci as int]));
            let xc = cands@[ci as int];
            let jx = choose|j: int| 0 <= j < pre_sort.len() && pre_sort[j] == xc;
            assert(xc.1 == jx && xc.0 == spec_combined_heuristic(
                rotated(cube@, spec_move_at(jx).0, spec_move_at(jx).1),
                *db,
            ));
        }
        let idx = cands[ci].1;
        let mv = move_at(idx);
        let child = cube.apply_move(mv.0, mv.1);
        proof {
            if win {
                // The solved child carries heuristic zero and sorts first,
                // so the candidate in hand is exactly it.
                lemma_combined_heuristic_solved_zero(*db);
                let k0 = choose|k: int|
                    0 <= k < 18 && #[trigger] rotated(cube@, spec_move_at(k).0, spec_move_at(k).1)
                        == solved_state();
                assert(pre_sort[k0].1 == k0 && pre_sort[k0].0 == spec_combined_heuristic(
                    solved_state(),
                    *db,
                ));
                assert(pre_sort[k0] == (0usize, k0 as usize));
                assert(pre_sort.contains(pre_sort[k0]));
                assert(cands@.contains(pre_sort[k0]));
                let j0 = choose|j: int| 0 <= j < cands@.len() && cands@[j] == pre_sort[k0];
                if j0 > 0 {
                    assert(lex_le(cands@[0], cands@[j0]));
                }
                assert(cands@[0].0 == 0);
                assert(ci == 0);
                assert(spec_combined_heuristic(child@, *db) == 0);
                lemma_combined_heuristic_zero_canonical(child@, *db);
                assert(child@ == solved_state());
                crate::cube::lemma_solved_state_solved();
                assert(is_solved_state(child@));
            }
        }
        let mut skip = false;
        if path.len() > 0 {
            let last = path[path.len() - 1];
            if last.0 == mv.0 {
                skip = true;
            }
        }
        if !skip {
            if contains_cube(visited, &child) {
                skip = true;
            }
        }
        if !skip {
            let ghost vis_mid = visited@;
            path.push(mv);
            visited.push(child.clone());
            proof {
                assert(vis_mid.is_prefix_of(visited@)) by {
                    assert(vis_mid =~= visited@.subrange(0, vis_mid.len() as int));
                }
                lemma_prefix_chain(visited0, vis_mid, visited@);
            }
            let ghost vis_pushed = visited@;
            let t = search(&child, g + 1, bound, path, visited, depth_limit, db);
            proof {
                lemma_prefix_chain(visited0, vis_pushed, visited@);
            }
            if t < min_cost {
                min_cost = t;
            }
            if t == 0 {
                proof {
                    let pushed = path0.push(mv);
                    let total = path@.subrange(path0.len() as int, path@.len() as int);
                    let rest = path@.subrange(pushed.len() as int, path@.len() as int);
                    assert(pushed.is_prefix_of(path@));
                    assert(path@[path0.len() as int] == pushed[path0.len() as int]);
                    assert(total[0] == mv);
                    assert(total.subrange(1, total.len() as int) =~= rest);
                    assert(apply_moves(cube@, total) == apply_moves(
                        rotated(cube@, mv.0, mv.1),
                        total.subrange(1, total.len() as int),
                    ));
                    assert(path0.is_prefix_of(path@)) by {
                        assert(path0 =~= path@.subrange(0, path0.len() as int));
                    }
                    if no_consecutive_same_face(path0) {
                        // The pushed move passed the same-face guard, so the
                        // extended context keeps the discipline and the
                        // child's contract carries it to the final path.
                        assert forall|i: int|
                            0 <= i < pushed.len() - 1 implies (#[trigger] pushed[i]).0 != pushed[
                            i + 1].0 by {
                            if i < path0.len() - 1 {
                                assert(pushed[i] == path0[i] && pushed[i + 1] == path0[i + 1]);
                            } else {
                                assert(pushed[i] == path0.last() && pushed[i + 1] == mv);
                            }
                        }
                        assert(no_consecutive_same_face(pushed));
                    }
                    if win {
                        assert(path@ == pushed);
                        assert(path@.len() == 1);
                    }
                }
                return 0;
            }
            path.pop();
            proof {
                assert(path0.push(mv).drop_last() =~= path0);
            }
        }
        ci = ci + 1;
    }
    min_cost
}

/// Iterative-deepening A*: repeatedly runs the bounded search, raising the
/// cost bound to the smallest cost that exceeded it, until a solution is
/// found or the search space within the depth cap is exhausted. Returns the
/// ordered move sequence on success, or the distinct no-solution outcome.
/// On an already-solved input the result is the empty move sequence; when
/// the input is exactly one table move from the canonical solved state and
/// the database records solved at depth zero, the result is that one-move
/// solution.
pub fn ida_star(cube: &Cube, db: &PatternDB) -> (r: Option<Vec<(Face, RotationDirection)>>)
    requires
        cube.wf(),
        db.wf(),
    ensures
        r matches Some(p) ==> is_solved_state(apply_moves(cube@, p@)) && p@.len() <= 5
            && no_consecutive_same_face(p@),
        is_solved_state(cube@) ==> (r matches Some(p) && p@.len() == 0),
        (!is_solved_state(cube@) && db.contains_state(solved_state()) && db.depth_of(
            solved_state(),
        ) == 0 && (exists|k: int|
            0 <= k < 18 && #[trigger] rotated(cube@, spec_move_at(k).0, spec_move_at(k).1)
                == solved_state())) ==> (r matches Some(p) && p@.len() == 1),
{
    let mut bound = combined_heuristic(cube, db);
    let mut path: Vec<(Face, RotationDirection)> = Vec::new();
    let ghost hy = !is_solved_state(cube@) && db.contains_state(solved_state()) && db.depth_of(
        solved_state(),
    ) == 0 && (exists|k: int|
        0 <= k < 18 && #[trigger] rotated(cube@, spec_move_at(k).0, spec_move_at(k).1)
            == solved_state());
    // Every failed iteration strictly raises the bound, and no cost the
    // search reports exceeds the depth cap of 5 plus the heuristic ceiling
    // of 13986, so the loop terminates.
    loop
        invariant
            cube.wf(),
            db.wf(),
            path@.len() == 0,
            bound <= 13991,
            is_solved_state(cube@) ==> bound == spec_combined_heuristic(cube@, *db),
            hy == (!is_solved_state(cube@) && db.contains_state(solved_state()) && db.depth_of(
                solved_state(),
            ) == 0 && (exists|k: int|
                0 <= k < 18 && #[trigger] rotated(cube@, spec_move_at(k).0, spec_move_at(k).1)
                    == solved_state())),
            hy ==> bound == spec_combined_heuristic(cube@, *db),
        decreases 13992 - bound,
    {
        let mut visited: Vec<Cube> = Vec::new();
        proof {
            if hy {
                lemma_combined_heuristic_positive(cube@, *db);
                assert(!contains_cube_state(visited@, solved_state()));
                assert(one_move_win(*cube, 0, bound, path@, visited@, 5, *db));
            }
            assert(no_consecutive_same_face(Seq::<(Face, RotationDirection)>::empty()));
        }
        let result = search(cube, 0, bound, &mut path, &mut visited, 5, db);
        if result == 0 {
            proof {
                assert(path@.subrange(0, path@.len() as int) =~= path@);
            }
            return Some(path);
        }
        if result == usize::MAX {
            return None;
        }
        bound = result;
    }
}

} // verus!
