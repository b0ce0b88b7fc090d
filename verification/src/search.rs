//! The bucketed frontier store, the search driver and the backward path
//! reconstruction.
//!
//! The frontier partitions all discovered states into 16 buckets, one per
//! blank cell. Within a bucket no two states hold the same board, and a
//! duplicate discovered at a better-or-equal depth re-opens the stored
//! state in place instead of being added.

use vstd::prelude::*;

use crate::board::BoardState;
use crate::board::BOARD_CELLS;
use crate::board::diff_spec;
use crate::board::is_successor;
use crate::board::lemma_one_slide_apart_ne;
use crate::board::lemma_pos_of_unique;
use crate::board::one_slide_apart;
use crate::board::single_step_boards;
use crate::board::succ_cells;
use crate::board::swap_cells;
use crate::board::unchanged_but_flags;
use crate::board::zero_idx;

verus! {

/// The state stored at position `i` of bucket `b`.
pub open spec fn node_at(sts: Seq<Vec<BoardState>>, b: int, i: int) -> BoardState {
    sts[b]@[i]
}

/// `(b, i)` names a stored state.
pub open spec fn valid_at(sts: Seq<Vec<BoardState>>, b: int, i: int) -> bool {
    0 <= b < sts.len() && 0 <= i < sts[b]@.len()
}

/// Every stored state of one bucket is well-formed.
pub open spec fn bucket_wf(bs: Seq<BoardState>) -> bool {
    forall|i: int| 0 <= i < bs.len() ==> (#[trigger] bs[i]).wf()
}

/// No two states of one bucket hold the same board.
pub open spec fn bucket_distinct(bs: Seq<BoardState>) -> bool {
    forall|i: int, j: int|
        0 <= i < j < bs.len() ==> (#[trigger] bs[i]).board@ != (#[trigger] bs[j]).board@
}

/// The frontier's shape: 16 buckets of well-formed states, each stored in
/// the bucket of its blank cell, with no duplicate board inside a bucket.
pub open spec fn frontier_wf(sts: Seq<Vec<BoardState>>) -> bool {
    &&& sts.len() == 16
    &&& forall|b: int, i: int|
        valid_at(sts, b, i) ==> (#[trigger] node_at(sts, b, i)).wf() && node_at(
            sts,
            b,
            i,
        ).zero_pos == b
    &&& forall|b: int| 0 <= b < sts.len() ==> bucket_distinct((#[trigger] sts[b])@)
}

/// Some stored state lies one slide away from `n` at a strictly smaller
/// depth.
pub open spec fn has_pred(sts: Seq<Vec<BoardState>>, n: BoardState) -> bool {
    exists|c: int, j: int|
        valid_at(sts, c, j) && (#[trigger] node_at(sts, c, j)).range < n.range
            && single_step_boards(n.board@, node_at(sts, c, j).board@)
}

/// Backward-path invariant: a stored state at depth 0 holds the start
/// board, and every deeper stored state has a stored predecessor one
/// slide away at a strictly smaller depth.
pub open spec fn pred_inv(sts: Seq<Vec<BoardState>>, init_board: Seq<u8>) -> bool {
    forall|b: int, i: int|
        valid_at(sts, b, i) ==> ((#[trigger] node_at(sts, b, i)).range == 0 ==> node_at(
            sts,
            b,
            i,
        ).board@ == init_board) && (node_at(sts, b, i).range > 0 ==> has_pred(
            sts,
            node_at(sts, b, i),
        ))
}

/// Some stored state holds the goal board.
pub open spec fn goal_present(sts: Seq<Vec<BoardState>>, goal: Seq<u8>) -> bool {
    exists|b: int, i: int| valid_at(sts, b, i) && (#[trigger] node_at(sts, b, i)).board@ == goal
}

/// No stored state is deeper than `bound`.
pub open spec fn ranges_at_most(sts: Seq<Vec<BoardState>>, bound: int) -> bool {
    forall|b: int, i: int|
        valid_at(sts, b, i) ==> (#[trigger] node_at(sts, b, i)).range <= bound
}

/// One frontier grew out of the other: no stored state disappears or
/// changes its board or blank cell, and depths only shrink.
pub open spec fn evolves_to(pre: Seq<Vec<BoardState>>, post: Seq<Vec<BoardState>>) -> bool {
    &&& post.len() == pre.len()
    &&& forall|b: int| 0 <= b < pre.len() ==> (#[trigger] pre[b])@.len() <= post[b]@.len()
    &&& forall|b: int, i: int|
        valid_at(pre, b, i) ==> (#[trigger] node_at(post, b, i)).board@ == node_at(
            pre,
            b,
            i,
        ).board@ && node_at(post, b, i).range <= node_at(pre, b, i).range && node_at(
            post,
            b,
            i,
        ).zero_pos == node_at(pre, b, i).zero_pos
}

/// A stored predecessor stays a stored predecessor while the frontier
/// grows.
pub proof fn lemma_has_pred_evolves(
    pre: Seq<Vec<BoardState>>,
    post: Seq<Vec<BoardState>>,
    n: BoardState,
)
    requires
        evolves_to(pre, post),
        has_pred(pre, n),
    ensures
        has_pred(post, n),
{
    let (c, j) = choose|c: int, j: int|
        valid_at(pre, c, j) && (#[trigger] node_at(pre, c, j)).range < n.range
            && single_step_boards(n.board@, node_at(pre, c, j).board@);
    assert(valid_at(post, c, j) && node_at(post, c, j).range < n.range && single_step_boards(
        n.board@,
        node_at(post, c, j).board@,
    ));
}

/// A stored goal stays stored while the frontier grows.
pub proof fn lemma_goal_present_evolves(
    pre: Seq<Vec<BoardState>>,
    post: Seq<Vec<BoardState>>,
    goal: Seq<u8>,
)
    requires
        evolves_to(pre, post),
        goal_present(pre, goal),
    ensures
        goal_present(post, goal),
{
    let (b, i) = choose|b: int, i: int|
        valid_at(pre, b, i) && (#[trigger] node_at(pre, b, i)).board@ == goal;
    assert(valid_at(post, b, i) && node_at(post, b, i).board@ == goal);
}

/// Inserts a freshly discovered state into its bucket, enforcing the
/// dominance rule: if the bucket already stores the same board at a
/// greater-or-equal depth, that stored state is re-opened in place (its
/// depth overwritten, its expansion flags cleared) and nothing is added;
/// if it stores the same board at a strictly smaller depth, nothing
/// changes at all; otherwise the new state is appended. Returns the
/// running count of stored states, raised by one exactly on an append.
pub fn update_states_list(states: &mut Vec<BoardState>, new_state: BoardState, states_amount: usize) -> (r:
    usize)
    requires
        bucket_wf(old(states)@),
        bucket_distinct(old(states)@),
        new_state.wf(),
        states_amount < usize::MAX,
    ensures
        bucket_wf(final(states)@),
        bucket_distinct(final(states)@),
        (forall|i: int|
            0 <= i < old(states)@.len() ==> (#[trigger] old(states)@[i]).board@
                != new_state.board@) ==> (final(states)@ == old(states)@.push(new_state) && r
            == states_amount + 1),
        forall|i: int|
            0 <= i < old(states)@.len() && (#[trigger] old(states)@[i]).board@
                == new_state.board@ ==> {
                &&& r == states_amount
                &&& final(states)@.len() == old(states)@.len()
                &&& (forall|k: int|
                    0 <= k < old(states)@.len() && k != i ==> final(states)@[k] == old(
                        states,
                    )@[k])
                &&& (old(states)@[i].range < new_state.range ==> final(states)@ == old(states)@)
                &&& (old(states)@[i].range >= new_state.range ==> {
                    let m = final(states)@[i];
                    &&& m.board@ == old(states)@[i].board@
                    &&& m.zero_pos == old(states)@[i].zero_pos
                    &&& m.hash == old(states)@[i].hash
                    &&& m.range == new_state.range
                    &&& !m.left_done && !m.right_done && !m.up_done && !m.down_done
                })
            },
{
    let mut i: usize = 0;
    let len = states.len();
    while i < len
        invariant
            states@ == old(states)@,
            bucket_wf(states@),
            bucket_distinct(states@),
            new_state.wf(),
            states_amount < usize::MAX,
            len == states@.len(),
            i <= len,
            forall|k: int| 0 <= k < i ==> (#[trigger] states@[k]).board@ != new_state.board@,
        decreases len - i,
    {
        if !states[i].is_diff_board(&new_state) {
            // The bucket stores the same board; by distinctness it is the
            // only such entry.
            assert(forall|k: int|
                0 <= k < states@.len() && (#[trigger] states@[k]).board@ == new_state.board@
                    ==> k == i);
            if states[i].range >= new_state.range {
                let ghost pre = states@;
                let mut node = states.remove(i);
                node.reset_state(&new_state);
                states.insert(i, node);
                proof {
                    assert(states@ =~= pre.update(i as int, node));
                }
            }
            return states_amount;
        }
        i = i + 1;
    }
    states.push(new_state);
    states_amount + 1
}

/// What expanding the stored state `sel` of bucket `index` leaves behind
/// and hands back: that state keeps its board, blank cell, depth and
/// checksum but has all four directions marked attempted; every other
/// stored state is untouched; and the returned vector holds exactly the
/// legal successor states, one slide deeper, in the order left, right,
/// up, down.
pub open spec fn expanded_at(
    pre: Seq<Vec<BoardState>>,
    post: Seq<Vec<BoardState>>,
    r: Seq<BoardState>,
    index: int,
    sel: int,
) -> bool {
    &&& valid_at(pre, index, sel)
    &&& post[index]@.len() == pre[index]@.len()
    &&& (forall|k: int|
        0 <= k < pre[index]@.len() && k != sel ==> post[index]@[k] == pre[index]@[k])
    &&& {
        let m = post[index]@[sel];
        &&& unchanged_but_flags(pre[index]@[sel], m)
        &&& m.left_done && m.right_done && m.up_done && m.down_done
    }
    &&& r.len() == succ_cells(pre[index]@[sel].zero_pos as int).len()
    &&& (forall|k: int|
        0 <= k < r.len() ==> is_successor(
            #[trigger] r[k],
            pre[index]@[sel],
            succ_cells(pre[index]@[sel].zero_pos as int)[k],
        ))
}

/// Picks from the given bucket the expandable state (one with an
/// unattempted direction) whose heuristic distance to the goal is
/// smallest — on ties the first stored one — expands it in place, and
/// returns its legal successors. Returns an empty vector, changing
/// nothing, when the bucket has no expandable state.
pub fn get_not_activated_state(
    arrays: &mut Vec<Vec<BoardState>>,
    index: usize,
    end_state: &BoardState,
) -> (r: Vec<BoardState>)
    requires
        index < old(arrays)@.len(),
        bucket_wf(old(arrays)@[index as int]@),
        forall|i: int|
            0 <= i < old(arrays)@[index as int]@.len() ==> (#[trigger] old(
                arrays,
            )@[index as int]@[i]).range < u32::MAX,
        end_state.wf(),
    ensures
        final(arrays)@.len() == old(arrays)@.len(),
        forall|b: int|
            0 <= b < old(arrays)@.len() && b != index ==> final(arrays)@[b] == old(arrays)@[b],
        (forall|i: int|
            0 <= i < old(arrays)@[index as int]@.len() ==> !(#[trigger] old(
                arrays,
            )@[index as int]@[i]).can_move_spec()) ==> (final(arrays)@ == old(arrays)@ && r@.len()
            == 0),
        (exists|i: int|
            0 <= i < old(arrays)@[index as int]@.len() && (#[trigger] old(
                arrays,
            )@[index as int]@[i]).can_move_spec()) ==> (exists|sel: int|
            {
                &&& expanded_at(old(arrays)@, final(arrays)@, r@, index as int, sel)
                &&& (#[trigger] old(arrays)@[index as int]@[sel]).can_move_spec()
                &&& (forall|j: int|
                    0 <= j < old(arrays)@[index as int]@.len() && (#[trigger] old(
                        arrays,
                    )@[index as int]@[j]).can_move_spec() ==> diff_spec(
                        old(arrays)@[index as int]@[sel].board@,
                        end_state.board@,
                    ) <= diff_spec(old(arrays)@[index as int]@[j].board@, end_state.board@))
                &&& (forall|j: int|
                    0 <= j < sel && (#[trigger] old(arrays)@[index as int]@[j]).can_move_spec()
                        ==> diff_spec(old(arrays)@[index as int]@[j].board@, end_state.board@)
                        > diff_spec(old(arrays)@[index as int]@[sel].board@, end_state.board@))
            }),
{
    let blen = arrays[index].len();
    let mut best: usize = 0;
    let mut best_diff: usize = 0;
    let mut have: bool = false;
    let mut i: usize = 0;
    while i < blen
        invariant
            arrays@ == old(arrays)@,
            index < arrays@.len(),
            bucket_wf(arrays@[index as int]@),
            end_state.wf(),
            blen == arrays@[index as int]@.len(),
            i <= blen,
            have <==> exists|k: int|
                0 <= k < i && (#[trigger] arrays@[index as int]@[k]).can_move_spec(),
            !have ==> forall|k: int|
                0 <= k < i ==> !(#[trigger] arrays@[index as int]@[k]).can_move_spec(),
            have ==> {
                &&& best < i
                &&& arrays@[index as int]@[best as int].can_move_spec()
                &&& best_diff == diff_spec(
                    arrays@[index as int]@[best as int].board@,
                    end_state.board@,
                )
                &&& (forall|j: int|
                    0 <= j < i && (#[trigger] arrays@[index as int]@[j]).can_move_spec()
                        ==> best_diff <= diff_spec(
                        arrays@[index as int]@[j].board@,
                        end_state.board@,
                    ))
                &&& (forall|j: int|
                    0 <= j < best && (#[trigger] arrays@[index as int]@[j]).can_move_spec()
                        ==> diff_spec(arrays@[index as int]@[j].board@, end_state.board@)
                        > best_diff)
            },
        decreases blen - i,
    {
        if arrays[index][i].can_move() {
            let d = arrays[index][i].diff(end_state);
            if !have || d < best_diff {
                best = i;
                best_diff = d;
                have = true;
            }
        }
        i = i + 1;
    }
    if !have {
        return Vec::new();
    }
    let ghost pre = arrays@;
    let mut node = arrays[index].remove(best);
    let succs = node.do_move();
    arrays[index].insert(best, node);
    proof {
        assert(arrays@[index as int]@ =~= pre[index as int]@.update(best as int, node));
        assert(arrays@ =~= pre.update(index as int, arrays@[index as int]));
        assert(expanded_at(pre, arrays@, succs@, index as int, best as int));
    }
    succs
}

/// The first `n` buckets laid out one after the other.
pub open spec fn flat_prefix(sts: Seq<Vec<BoardState>>, n: int) -> Seq<BoardState>
    decreases n,
{
    if n <= 0 {
        Seq::<BoardState>::empty()
    } else {
        flat_prefix(sts, n - 1) + sts[n - 1]@
    }
}

/// All buckets laid out one after the other.
pub open spec fn flatten_frontier(sts: Seq<Vec<BoardState>>) -> Seq<BoardState> {
    flat_prefix(sts, sts.len() as int)
}

/// Every stored state appears in the flattened frontier.
proof fn lemma_flat_prefix_covers(sts: Seq<Vec<BoardState>>, n: int, b: int, i: int)
    requires
        0 <= b < n <= sts.len(),
        0 <= i < sts[b]@.len(),
    ensures
        exists|p: int|
            0 <= p < flat_prefix(sts, n).len() && #[trigger] flat_prefix(sts, n)[p] == node_at(
                sts,
                b,
                i,
            ),
    decreases n,
{
    if b == n - 1 {
        let p = flat_prefix(sts, n - 1).len() + i;
        assert(flat_prefix(sts, n)[p] == node_at(sts, b, i));
    } else {
        lemma_flat_prefix_covers(sts, n - 1, b, i);
        let q = choose|p: int|
            0 <= p < flat_prefix(sts, n - 1).len() && #[trigger] flat_prefix(sts, n - 1)[p]
                == node_at(sts, b, i);
        assert(flat_prefix(sts, n)[q] == node_at(sts, b, i));
    }
}

/// Everything in the flattened frontier is a stored state.
proof fn lemma_flat_prefix_from(sts: Seq<Vec<BoardState>>, n: int, p: int)
    requires
        0 <= n <= sts.len(),
        0 <= p < flat_prefix(sts, n).len(),
    ensures
        exists|b: int, i: int|
            0 <= b < n && 0 <= i < sts[b]@.len() && flat_prefix(sts, n)[p] == #[trigger] node_at(
                sts,
                b,
                i,
            ),
    decreases n,
{
    if n > 0 {
        let shorter = flat_prefix(sts, n - 1);
        if p < shorter.len() {
            lemma_flat_prefix_from(sts, n - 1, p);
            let (b, i) = choose|b: int, i: int|
                0 <= b < n - 1 && 0 <= i < sts[b]@.len() && flat_prefix(sts, n - 1)[p]
                    == #[trigger] node_at(sts, b, i);
            assert(flat_prefix(sts, n)[p] == node_at(sts, b, i));
        } else {
            let i = p - shorter.len();
            assert(flat_prefix(sts, n)[p] == node_at(sts, n - 1, i));
        }
    }
}

/// The flattened frontier seen by the path walk: every state is
/// well-formed, a state at depth 0 holds the start board, and every
/// deeper state has a predecessor one slide away at a strictly smaller
/// depth.
pub open spec fn flat_ok(ns: Seq<BoardState>, init_board: Seq<u8>) -> bool {
    forall|i: int|
        0 <= i < ns.len() ==> {
            let n = #[trigger] ns[i];
            &&& n.wf()
            &&& (n.range == 0 ==> n.board@ == init_board)
            &&& (n.range > 0 ==> exists|j: int|
                0 <= j < ns.len() && (#[trigger] ns[j]).range < n.range && single_step_boards(
                    n.board@,
                    ns[j].board@,
                ))
        }
}

/// The frontier's invariants, and its depth bound, carry over to its
/// flattened form.
proof fn lemma_flatten_ok(sts: Seq<Vec<BoardState>>, init_board: Seq<u8>, goal: Seq<u8>, bound: int)
    requires
        frontier_wf(sts),
        pred_inv(sts, init_board),
        goal_present(sts, goal),
        ranges_at_most(sts, bound),
    ensures
        flat_ok(flatten_frontier(sts), init_board),
        exists|p: int|
            0 <= p < flatten_frontier(sts).len() && (#[trigger] flatten_frontier(sts)[p]).board@
                == goal,
        forall|p: int|
            0 <= p < flatten_frontier(sts).len() ==> (#[trigger] flatten_frontier(
                sts,
            )[p]).range <= bound,
{
    let flat = flatten_frontier(sts);
    let n = sts.len() as int;
    assert forall|p: int| 0 <= p < flat.len() implies {
        let nd = #[trigger] flat[p];
        &&& nd.wf()
        &&& (nd.range == 0 ==> nd.board@ == init_board)
        &&& (nd.range > 0 ==> exists|j: int|
            0 <= j < flat.len() && (#[trigger] flat[j]).range < nd.range && single_step_boards(
                nd.board@,
                flat[j].board@,
            ))
    } by {
        lemma_flat_prefix_from(sts, n, p);
        let (b, i) = choose|b: int, i: int|
            0 <= b < n && 0 <= i < sts[b]@.len() && flat[p] == #[trigger] node_at(sts, b, i);
        let nd = node_at(sts, b, i);
        assert(valid_at(sts, b, i));
        assert(nd.wf());
        if nd.range > 0 {
            assert(has_pred(sts, nd));
            let (c, j) = choose|c: int, j: int|
                valid_at(sts, c, j) && (#[trigger] node_at(sts, c, j)).range < nd.range
                    && single_step_boards(nd.board@, node_at(sts, c, j).board@);
            lemma_flat_prefix_covers(sts, n, c, j);
            let q = choose|q: int|
                0 <= q < flat.len() && #[trigger] flat[q] == node_at(sts, c, j);
            assert(flat[q].range < nd.range && single_step_boards(nd.board@, flat[q].board@));
        }
    }
    assert forall|p: int| 0 <= p < flat.len() implies (#[trigger] flat[p]).range <= bound by {
        lemma_flat_prefix_from(sts, n, p);
        let (b, i) = choose|b: int, i: int|
            0 <= b < n && 0 <= i < sts[b]@.len() && flat[p] == #[trigger] node_at(sts, b, i);
        assert(valid_at(sts, b, i));
    }
    let (gb, gi) = choose|b: int, i: int|
        valid_at(sts, b, i) && (#[trigger] node_at(sts, b, i)).board@ == goal;
    lemma_flat_prefix_covers(sts, n, gb, gi);
}

/// Walks the finished frontier backward from the goal: starting at the
/// stored state holding the goal board, repeatedly emits the current
/// state and steps to some stored state one slide away at a strictly
/// smaller depth, until none exists — which, by the frontier's
/// invariants, happens exactly at the start board. The result lists the
/// boards from the goal back to the start, each consecutive pair one
/// legal slide apart and strictly shallower as the walk proceeds.
fn reconstruct_path(
    states: Vec<Vec<BoardState>>,
    end_state: &BoardState,
    init_board: Ghost<Seq<u8>>,
    bound: Ghost<int>,
) -> (r: Vec<BoardState>)
    requires
        frontier_wf(states@),
        pred_inv(states@, init_board@),
        goal_present(states@, end_state.board@),
        ranges_at_most(states@, bound@),
        end_state.wf(),
    ensures
        r@.len() >= 1,
        r@[0].board@ == end_state.board@,
        r@[r@.len() - 1].board@ == init_board@,
        forall|k: int| 0 <= k < r@.len() ==> (#[trigger] r@[k]).wf(),
        forall|k: int| 0 <= k < r@.len() ==> (#[trigger] r@[k]).range <= bound@,
        forall|k: int|
            0 <= k < r@.len() - 1 ==> single_step_boards(
                (#[trigger] r@[k]).board@,
                r@[k + 1].board@,
            ) && r@[k + 1].range < r@[k].range,
{
    proof {
        lemma_flatten_ok(states@, init_board@, end_state.board@, bound@);
    }
    let ghost sts0 = states@;
    let mut states = states;
    let mut all_states: Vec<BoardState> = Vec::new();
    let mut b: usize = 0;
    while b < BOARD_CELLS
        invariant
            sts0.len() == 16,
            states@.len() == 16,
            b <= 16,
            forall|c: int| b <= c < 16 ==> states@[c] == sts0[c],
            all_states@ == flat_prefix(sts0, b as int),
        decreases 16 - b,
    {
        all_states.append(&mut states[b]);
        b = b + 1;
    }
    assert(all_states@ == flatten_frontier(sts0));
    let len = all_states.len();
    let ghost goal = end_state.board@;
    let ghost init = init_board@;

    // Locate the stored state holding the goal board.
    let mut g: usize = 0;
    while all_states[g].is_diff_board(end_state)
        invariant
            flat_ok(all_states@, init),
            end_state.wf(),
            goal == end_state.board@,
            len == all_states@.len(),
            g < len,
            forall|k: int| 0 <= k < g ==> (#[trigger] all_states@[k]).board@ != goal,
            exists|w: int| g <= w < len && (#[trigger] all_states@[w]).board@ == goal,
        decreases len - g,
    {
        g = g + 1;
        proof {
            let w = choose|w: int| g - 1 <= w < len && (#[trigger] all_states@[w]).board@ == goal;
            assert(g <= w < len && all_states@[w].board@ == goal);
        }
    }

    // Walk backward, emitting each state until the start board is reached.
    let mut result: Vec<BoardState> = Vec::new();
    let mut cur: usize = g;
    loop
        invariant_except_break
            flat_ok(all_states@, init),
            len == all_states@.len(),
            cur < len,
            result@.len() == 0 ==> all_states@[cur as int].board@ == goal,
            result@.len() > 0 ==> {
                &&& result@[0].board@ == goal
                &&& single_step_boards(
                    result@[result@.len() - 1].board@,
                    all_states@[cur as int].board@,
                )
                &&& all_states@[cur as int].range < result@[result@.len() - 1].range
            },
            forall|k: int| 0 <= k < result@.len() ==> (#[trigger] result@[k]).wf(),
            forall|k: int| 0 <= k < result@.len() ==> (#[trigger] result@[k]).range <= bound@,
            forall|p: int| 0 <= p < len ==> (#[trigger] all_states@[p]).range <= bound@,
            forall|k: int|
                0 <= k < result@.len() - 1 ==> single_step_boards(
                    (#[trigger] result@[k]).board@,
                    result@[k + 1].board@,
                ) && result@[k + 1].range < result@[k].range,
        ensures
            result@.len() >= 1,
            result@[0].board@ == goal,
            result@[result@.len() - 1].board@ == init,
            forall|k: int| 0 <= k < result@.len() ==> (#[trigger] result@[k]).wf(),
            forall|k: int| 0 <= k < result@.len() ==> (#[trigger] result@[k]).range <= bound@,
            forall|k: int|
                0 <= k < result@.len() - 1 ==> single_step_boards(
                    (#[trigger] result@[k]).board@,
                    result@[k + 1].board@,
                ) && result@[k + 1].range < result@[k].range,
        decreases all_states@[cur as int].range,
    {
        result.push(all_states[cur].duplicate());
        let cur_range = all_states[cur].range;
        let mut k: usize = 0;
        let mut nxt: usize = 0;
        let mut found: bool = false;
        while k < len
            invariant
                flat_ok(all_states@, init),
                len == all_states@.len(),
                cur < len,
                k <= len,
                !found ==> forall|m: int|
                    0 <= m < k ==> !((#[trigger] all_states@[m]).range < cur_range
                        && single_step_boards(
                        all_states@[cur as int].board@,
                        all_states@[m].board@,
                    )),
                found ==> {
                    &&& nxt < len
                    &&& all_states@[nxt as int].range < cur_range
                    &&& single_step_boards(
                        all_states@[cur as int].board@,
                        all_states@[nxt as int].board@,
                    )
                },
            decreases len - k,
        {
            if !found {
                if all_states[k].range < cur_range {
                    if all_states[cur].is_single_step_diff(&all_states[k]) {
                        nxt = k;
                        found = true;
                    }
                }
            }
            k = k + 1;
        }
        if !found {
            // No shallower neighbour exists, so by the backward-path
            // invariant the current state is the start.
            proof {
                assert(all_states@[cur as int].range == 0) by {
                    let n = all_states@[cur as int];
                    if n.range > 0 {
                        let j = choose|j: int|
                            0 <= j < all_states@.len() && (#[trigger] all_states@[j]).range
                                < n.range && single_step_boards(n.board@, all_states@[j].board@);
                        assert(!(all_states@[j].range < cur_range && single_step_boards(
                            all_states@[cur as int].board@,
                            all_states@[j].board@,
                        )));
                    }
                }
            }
            break ;
        }
        cur = nxt;
    }
    result
}

/// Shorter prefixes of the frontier lay out no more states.
proof fn lemma_flat_prefix_len_mono(sts: Seq<Vec<BoardState>>, n: int, m: int)
    requires
        0 <= n <= m,
    ensures
        flat_prefix(sts, n).len() <= flat_prefix(sts, m).len(),
    decreases m,
{
    if n < m {
        lemma_flat_prefix_len_mono(sts, n, m - 1);
    }
}

/// Total number of stored states across all buckets: the store's live
/// state count, which a caller driving the store can log as progress.
pub fn count_states(states: &Vec<Vec<BoardState>>) -> (r: usize)
    requires
        flatten_frontier(states@).len() <= usize::MAX,
    ensures
        r == flatten_frontier(states@).len(),
{
    let mut total: usize = 0;
    let mut b: usize = 0;
    let len = states.len();
    while b < len
        invariant
            len == states@.len(),
            b <= len,
            total == flat_prefix(states@, b as int).len(),
            flatten_frontier(states@).len() <= usize::MAX,
        decreases len - b,
    {
        proof {
            lemma_flat_prefix_len_mono(states@, b as int + 1, len as int);
        }
        total = total + states[b].len();
        b = b + 1;
    }
    total
}

/// The smallest heuristic distance to the goal among the stored states
/// that can still be expanded, or nothing when every stored state is
/// spent: the search's current best-candidate quality, for progress
/// reporting.
pub fn best_distance(states: &Vec<Vec<BoardState>>, end_state: &BoardState) -> (r: Option<usize>)
    requires
        forall|b: int, i: int|
            valid_at(states@, b, i) ==> (#[trigger] node_at(states@, b, i)).wf(),
        end_state.wf(),
    ensures
        (r is None <==> forall|b: int, i: int|
            valid_at(states@, b, i) ==> !(#[trigger] node_at(states@, b, i)).can_move_spec()),
        (r matches Some(d) ==> exists|b: int, i: int|
            valid_at(states@, b, i) && (#[trigger] node_at(states@, b, i)).can_move_spec()
                && diff_spec(node_at(states@, b, i).board@, end_state.board@) == d),
        (r matches Some(d) ==> forall|b: int, i: int|
            valid_at(states@, b, i) && (#[trigger] node_at(states@, b, i)).can_move_spec() ==> d
                <= diff_spec(node_at(states@, b, i).board@, end_state.board@)),
{
    let mut best: usize = 0;
    let mut have: bool = false;
    let mut b: usize = 0;
    let blen = states.len();
    while b < blen
        invariant
            blen == states@.len(),
            b <= blen,
            end_state.wf(),
            forall|c: int, j: int|
                valid_at(states@, c, j) ==> (#[trigger] node_at(states@, c, j)).wf(),
            !have ==> forall|c: int, j: int|
                valid_at(states@, c, j) && c < b ==> !(#[trigger] node_at(
                    states@,
                    c,
                    j,
                )).can_move_spec(),
            have ==> exists|c: int, j: int|
                valid_at(states@, c, j) && c < b && (#[trigger] node_at(
                    states@,
                    c,
                    j,
                )).can_move_spec() && diff_spec(node_at(states@, c, j).board@, end_state.board@)
                    == best,
            have ==> forall|c: int, j: int|
                valid_at(states@, c, j) && c < b && (#[trigger] node_at(
                    states@,
                    c,
                    j,
                )).can_move_spec() ==> best <= diff_spec(
                    node_at(states@, c, j).board@,
                    end_state.board@,
                ),
        decreases blen - b,
    {
        let bl = states[b].len();
        let mut i: usize = 0;
        while i < bl
            invariant
                blen == states@.len(),
                b < blen,
                bl == states@[b as int]@.len(),
                i <= bl,
                end_state.wf(),
                forall|c: int, j: int|
                    valid_at(states@, c, j) ==> (#[trigger] node_at(states@, c, j)).wf(),
                !have ==> forall|c: int, j: int|
                    valid_at(states@, c, j) && (c < b || (c == b && j < i)) ==> !(
                    #[trigger] node_at(states@, c, j)).can_move_spec(),
                have ==> exists|c: int, j: int|
                    valid_at(states@, c, j) && (c < b || (c == b && j < i)) && (#[trigger] node_at(
                        states@,
                        c,
                        j,
                    )).can_move_spec() && diff_spec(
                        node_at(states@, c, j).board@,
                        end_state.board@,
                    ) == best,
                have ==> forall|c: int, j: int|
                    valid_at(states@, c, j) && (c < b || (c == b && j < i)) && (#[trigger] node_at(
                        states@,
                        c,
                        j,
                    )).can_move_spec() ==> best <= diff_spec(
                        node_at(states@, c, j).board@,
                        end_state.board@,
                    ),
            decreases bl - i,
        {
            proof {
                assert(valid_at(states@, b as int, i as int));
                assert(node_at(states@, b as int, i as int).wf());
            }
            if states[b][i].can_move() {
                let d = states[b][i].diff(end_state);
                if !have || d < best {
                    best = d;
                    have = true;
                    proof {
                        assert(node_at(states@, b as int, i as int).can_move_spec() && diff_spec(
                            node_at(states@, b as int, i as int).board@,
                            end_state.board@,
                        ) == best);
                    }
                }
            }
            i = i + 1;
        }
        b = b + 1;
    }
    if have {
        Some(best)
    } else {
        None
    }
}

/// Depth and state-count ceiling for one search call: keeps every depth
/// counter and the running state count far below the machine's integer
/// bounds, whatever the platform's word size.
pub const ROUND_LIMIT: usize = 0x0FFF_FFFF;

/// A successor awaiting insertion: well-formed, one slide deeper than
/// some state the frontier already stores.
pub open spec fn pending_ok(sts: Seq<Vec<BoardState>>, n: BoardState, bound: int) -> bool {
    &&& n.wf()
    &&& 0 < n.range <= bound
    &&& n.zero_pos < 16
    &&& has_pred(sts, n)
}

/// What the dominance rule leaves in a bucket when it finds the new
/// state's board already stored at position `i`: either the stored state
/// re-opened with the new depth, or — when the stored depth was already
/// strictly better — the bucket exactly as it was.
pub open spec fn dominance_resolved(
    pre_b: Seq<BoardState>,
    post_b: Seq<BoardState>,
    s: BoardState,
    i: int,
) -> bool {
    &&& 0 <= i < pre_b.len()
    &&& pre_b[i].board@ == s.board@
    &&& post_b.len() == pre_b.len()
    &&& (forall|k: int| 0 <= k < pre_b.len() && k != i ==> post_b[k] == pre_b[k])
    &&& post_b[i].board@ == pre_b[i].board@
    &&& post_b[i].zero_pos == pre_b[i].zero_pos
    &&& post_b[i].range <= pre_b[i].range
    &&& (post_b[i].range == s.range || post_b[i] == pre_b[i])
}

/// Expanding one stored state preserves every frontier invariant, and
/// each successor handed back is well-formed, one slide deeper than its
/// stored parent, and so has a stored predecessor.
proof fn lemma_after_expansion(
    pre: Seq<Vec<BoardState>>,
    post: Seq<Vec<BoardState>>,
    succs: Seq<BoardState>,
    bucket: int,
    init_board: Seq<u8>,
    round: int,
)
    requires
        frontier_wf(pre),
        pred_inv(pre, init_board),
        ranges_at_most(pre, round - 1),
        0 <= bucket < 16,
        post.len() == 16,
        forall|b: int| 0 <= b < 16 && b != bucket ==> post[b] == pre[b],
        (post == pre && succs.len() == 0) || (exists|sel: int|
            expanded_at(pre, post, succs, bucket, sel)),
    ensures
        frontier_wf(post),
        pred_inv(post, init_board),
        ranges_at_most(post, round),
        evolves_to(pre, post),
        succs.len() <= 4,
        forall|k: int| 0 <= k < succs.len() ==> pending_ok(post, #[trigger] succs[k], round),
{
    if post == pre && succs.len() == 0 {
        assert(evolves_to(pre, post));
        assert(forall|b: int, i: int|
            valid_at(post, b, i) ==> #[trigger] node_at(post, b, i) == node_at(pre, b, i));
        assert(pred_inv(post, init_board)) by {
            assert forall|b: int, i: int| valid_at(post, b, i) implies ((#[trigger] node_at(
                post,
                b,
                i,
            )).range == 0 ==> node_at(post, b, i).board@ == init_board) && (node_at(
                post,
                b,
                i,
            ).range > 0 ==> has_pred(post, node_at(post, b, i))) by {
                assert(valid_at(pre, b, i));
                if node_at(post, b, i).range > 0 {
                    assert(has_pred(pre, node_at(pre, b, i)));
                    lemma_has_pred_evolves(pre, post, node_at(post, b, i));
                }
            }
        }
    } else {
        let sel = choose|sel: int| expanded_at(pre, post, succs, bucket, sel);
        let parent = pre[bucket]@[sel];
        let m = post[bucket]@[sel];
        assert(valid_at(pre, bucket, sel));
        assert(node_at(pre, bucket, sel) == parent);
        assert(parent.wf() && parent.zero_pos == bucket);
        assert(parent.range <= round - 1);
        assert(unchanged_but_flags(parent, m));
        // Every stored state keeps its board, blank cell and depth.
        assert(evolves_to(pre, post)) by {
            assert forall|b: int, i: int| valid_at(pre, b, i) implies (#[trigger] node_at(
                post,
                b,
                i,
            )).board@ == node_at(pre, b, i).board@ && node_at(post, b, i).range <= node_at(
                pre,
                b,
                i,
            ).range && node_at(post, b, i).zero_pos == node_at(pre, b, i).zero_pos by {
                if b == bucket && i != sel {
                    assert(post[b]@[i] == pre[b]@[i]);
                }
            }
        }
        assert(frontier_wf(post)) by {
            assert forall|b: int, i: int| valid_at(post, b, i) implies (#[trigger] node_at(
                post,
                b,
                i,
            )).wf() && node_at(post, b, i).zero_pos == b by {
                assert(valid_at(pre, b, i));
                if b == bucket && i != sel {
                    assert(post[b]@[i] == pre[b]@[i]);
                }
            }
            assert forall|b: int| 0 <= b < post.len() implies bucket_distinct(
                (#[trigger] post[b])@,
            ) by {
                assert(bucket_distinct(pre[b]@));
                assert forall|i: int, j: int|
                    0 <= i < j < post[b]@.len() implies (#[trigger] post[b]@[i]).board@
                    != (#[trigger] post[b]@[j]).board@ by {
                    assert(node_at(post, b, i).board@ == node_at(pre, b, i).board@);
                    assert(node_at(post, b, j).board@ == node_at(pre, b, j).board@);
                    assert(node_at(pre, b, i).board@ != node_at(pre, b, j).board@);
                }
            }
        }
        assert(pred_inv(post, init_board)) by {
            assert forall|b: int, i: int| valid_at(post, b, i) implies ((#[trigger] node_at(
                post,
                b,
                i,
            )).range == 0 ==> node_at(post, b, i).board@ == init_board) && (node_at(
                post,
                b,
                i,
            ).range > 0 ==> has_pred(post, node_at(post, b, i))) by {
                assert(valid_at(pre, b, i));
                let n0 = node_at(pre, b, i);
                let n1 = node_at(post, b, i);
                assert(n1.board@ == n0.board@ && n1.range == n0.range);
                if n1.range > 0 {
                    assert(has_pred(pre, n0));
                    assert(has_pred(pre, n1)) by {
                        let (c, j) = choose|c: int, j: int|
                            valid_at(pre, c, j) && (#[trigger] node_at(pre, c, j)).range < n0.range
                                && single_step_boards(n0.board@, node_at(pre, c, j).board@);
                        assert(valid_at(pre, c, j) && node_at(pre, c, j).range < n1.range
                            && single_step_boards(n1.board@, node_at(pre, c, j).board@));
                    }
                    lemma_has_pred_evolves(pre, post, n1);
                }
            }
        }
        assert(ranges_at_most(post, round)) by {
            assert forall|b: int, i: int| valid_at(post, b, i) implies (#[trigger] node_at(
                post,
                b,
                i,
            )).range <= round by {
                assert(valid_at(pre, b, i));
                assert(node_at(pre, b, i).range <= round - 1);
            }
        }
        assert forall|k: int| 0 <= k < succs.len() implies pending_ok(
            post,
            #[trigger] succs[k],
            round,
        ) by {
            assert(is_successor(succs[k], parent, succ_cells(parent.zero_pos as int)[k]));
            let n = succs[k];
            assert(n.wf() && 0 < n.range <= round && n.zero_pos < 16);
            assert(has_pred(post, n)) by {
                assert(valid_at(post, bucket, sel));
                assert(node_at(post, bucket, sel) == m);
                assert(m.range < n.range);
                assert(single_step_boards(n.board@, m.board@));
            }
        }
    }
}

/// Inserting a pending successor under the dominance rule preserves every
/// frontier invariant, and afterwards some stored state holds the
/// successor's board.
proof fn lemma_after_insert(
    pre: Seq<Vec<BoardState>>,
    post: Seq<Vec<BoardState>>,
    s: BoardState,
    zp: int,
    init_board: Seq<u8>,
    round: int,
)
    requires
        frontier_wf(pre),
        pred_inv(pre, init_board),
        ranges_at_most(pre, round),
        pending_ok(pre, s, round),
        s.zero_pos == zp,
        0 <= zp < 16,
        post.len() == 16,
        forall|b: int| 0 <= b < 16 && b != zp ==> post[b] == pre[b],
        bucket_wf(post[zp]@),
        bucket_distinct(post[zp]@),
        (post[zp]@ == pre[zp]@.push(s)) || (exists|i: int|
            dominance_resolved(pre[zp]@, post[zp]@, s, i)),
    ensures
        frontier_wf(post),
        pred_inv(post, init_board),
        ranges_at_most(post, round),
        evolves_to(pre, post),
        goal_present(post, s.board@),
{
    if post[zp]@ == pre[zp]@.push(s) {
        let new_i = pre[zp]@.len() as int;
        assert(evolves_to(pre, post)) by {
            assert forall|b: int, i: int| valid_at(pre, b, i) implies (#[trigger] node_at(
                post,
                b,
                i,
            )).board@ == node_at(pre, b, i).board@ && node_at(post, b, i).range <= node_at(
                pre,
                b,
                i,
            ).range && node_at(post, b, i).zero_pos == node_at(pre, b, i).zero_pos by {
                if b == zp {
                    assert(post[b]@[i] == pre[b]@[i]);
                }
            }
        }
        assert(frontier_wf(post)) by {
            assert forall|b: int, i: int| valid_at(post, b, i) implies (#[trigger] node_at(
                post,
                b,
                i,
            )).wf() && node_at(post, b, i).zero_pos == b by {
                if b == zp && i == new_i {
                    assert(node_at(post, b, i) == s);
                } else {
                    assert(valid_at(pre, b, i));
                    assert(node_at(post, b, i) == node_at(pre, b, i));
                }
            }
        }
        assert(pred_inv(post, init_board)) by {
            assert forall|b: int, i: int| valid_at(post, b, i) implies ((#[trigger] node_at(
                post,
                b,
                i,
            )).range == 0 ==> node_at(post, b, i).board@ == init_board) && (node_at(
                post,
                b,
                i,
            ).range > 0 ==> has_pred(post, node_at(post, b, i))) by {
                if b == zp && i == new_i {
                    assert(node_at(post, b, i) == s);
                    lemma_has_pred_evolves(pre, post, s);
                } else {
                    assert(valid_at(pre, b, i));
                    let n0 = node_at(pre, b, i);
                    assert(node_at(post, b, i) == n0);
                    if n0.range > 0 {
                        assert(has_pred(pre, n0));
                        lemma_has_pred_evolves(pre, post, n0);
                    }
                }
            }
        }
        assert(ranges_at_most(post, round)) by {
            assert forall|b: int, i: int| valid_at(post, b, i) implies (#[trigger] node_at(
                post,
                b,
                i,
            )).range <= round by {
                if b == zp && i == new_i {
                    assert(node_at(post, b, i) == s);
                } else {
                    assert(valid_at(pre, b, i));
                    assert(node_at(post, b, i) == node_at(pre, b, i));
                }
            }
        }
        assert(goal_present(post, s.board@)) by {
            assert(valid_at(post, zp, new_i) && node_at(post, zp, new_i).board@ == s.board@);
        }
    } else {
        let di = choose|i: int| dominance_resolved(pre[zp]@, post[zp]@, s, i);
        assert(dominance_resolved(pre[zp]@, post[zp]@, s, di));
        let n0 = pre[zp]@[di];
        let n1 = post[zp]@[di];
        assert(evolves_to(pre, post)) by {
            assert forall|b: int, i: int| valid_at(pre, b, i) implies (#[trigger] node_at(
                post,
                b,
                i,
            )).board@ == node_at(pre, b, i).board@ && node_at(post, b, i).range <= node_at(
                pre,
                b,
                i,
            ).range && node_at(post, b, i).zero_pos == node_at(pre, b, i).zero_pos by {
                if b == zp && i != di {
                    assert(post[b]@[i] == pre[b]@[i]);
                }
            }
        }
        assert(frontier_wf(post)) by {
            assert forall|b: int, i: int| valid_at(post, b, i) implies (#[trigger] node_at(
                post,
                b,
                i,
            )).wf() && node_at(post, b, i).zero_pos == b by {
                assert(valid_at(pre, b, i));
                if b == zp && i != di {
                    assert(post[b]@[i] == pre[b]@[i]);
                }
            }
        }
        assert(pred_inv(post, init_board)) by {
            assert forall|b: int, i: int| valid_at(post, b, i) implies ((#[trigger] node_at(
                post,
                b,
                i,
            )).range == 0 ==> node_at(post, b, i).board@ == init_board) && (node_at(
                post,
                b,
                i,
            ).range > 0 ==> has_pred(post, node_at(post, b, i))) by {
                assert(valid_at(pre, b, i));
                let p0 = node_at(pre, b, i);
                let p1 = node_at(post, b, i);
                if b == zp && i == di && !(p1 == p0) {
                    // The stored duplicate was re-opened at the new depth.
                    assert(p1.range == s.range && p1.board@ == s.board@);
                    assert(p1.range > 0);
                    assert(has_pred(pre, p1)) by {
                        let (c, j) = choose|c: int, j: int|
                            valid_at(pre, c, j) && (#[trigger] node_at(pre, c, j)).range < s.range
                                && single_step_boards(s.board@, node_at(pre, c, j).board@);
                        assert(valid_at(pre, c, j) && node_at(pre, c, j).range < p1.range
                            && single_step_boards(p1.board@, node_at(pre, c, j).board@));
                    }
                    lemma_has_pred_evolves(pre, post, p1);
                } else {
                    assert(p1 == p0);
                    if p0.range > 0 {
                        assert(has_pred(pre, p0));
                        lemma_has_pred_evolves(pre, post, p0);
                    }
                }
            }
        }
        assert(ranges_at_most(post, round)) by {
            assert forall|b: int, i: int| valid_at(post, b, i) implies (#[trigger] node_at(
                post,
                b,
                i,
            )).range <= round by {
                assert(valid_at(pre, b, i));
                assert(node_at(post, b, i).range <= node_at(pre, b, i).range);
            }
        }
        assert(goal_present(post, s.board@)) by {
            assert(valid_at(post, zp, di) && node_at(post, zp, di).board@ == s.board@);
        }
    }
}

/// When the expanded bucket holds exactly one state, the fresh start,
/// and the goal board is one legal slide from the start board, the goal
/// is among the returned successors.
proof fn lemma_first_round_finds_goal(
    pre: Seq<Vec<BoardState>>,
    post: Seq<Vec<BoardState>>,
    succs: Seq<BoardState>,
    init_node: BoardState,
    zp: int,
    goal: Seq<u8>,
)
    requires
        init_node.wf(),
        init_node.zero_pos == zp,
        0 <= zp < 16,
        pre.len() == 16,
        pre[zp]@.len() == 1,
        pre[zp]@[0] == init_node,
        one_slide_apart(init_node.board@, goal),
        exists|sel: int| expanded_at(pre, post, succs, zp, sel),
    ensures
        exists|k: int| 0 <= k < succs.len() && (#[trigger] succs[k]).board@ == goal,
{
    let sel = choose|sel: int| expanded_at(pre, post, succs, zp, sel);
    assert(sel == 0);
    lemma_pos_of_unique(init_node.board@, 0u8, zp);
    assert(zero_idx(init_node.board@) == zp);
    let k0 = choose|k: int|
        0 <= k < succ_cells(zero_idx(init_node.board@)).len() && goal == swap_cells(
            init_node.board@,
            #[trigger] succ_cells(zero_idx(init_node.board@))[k],
            zero_idx(init_node.board@),
        );
    assert(is_successor(succs[k0], pre[zp]@[0], succ_cells(zp)[k0]));
    assert(succs[k0].board@ == goal);
}

/// Heuristic best-first search from `initial_state` to `end_state`,
/// bounded by `max_rounds` driver iterations.
///
/// Each round visits the next bucket in rotation, expands the bucket's
/// most promising unexhausted state, and inserts the successors under the
/// dominance rule, until a successor's board equals the goal board. On
/// success the reconstructed path is returned, listing boards from the
/// goal back to the start, consecutive boards one legal slide apart and
/// strictly shallower toward the start. When the round budget runs out
/// first, nothing is returned: the search cannot tell an unsolvable pair
/// from one it has not reached yet, so the budget is what makes every
/// call terminate.
///
/// Success is owed in the two cases the search settles at once: a start
/// equal to the goal gives a one-board path with no search, and a fresh
/// start whose goal is one legal slide away gives a two-board path, since
/// the first round expands the start and one of its successors is the
/// goal.
#[verifier::rlimit(100)]
pub fn calculate(initial_state: BoardState, end_state: BoardState, max_rounds: usize) -> (r:
    Option<Vec<BoardState>>)
    requires
        initial_state.wf(),
        end_state.wf(),
        initial_state.range == 0,
        max_rounds <= ROUND_LIMIT,
    ensures
        initial_state.board@ == end_state.board@ ==> (r matches Some(path) && path@.len() == 1),
        (!initial_state.left_done && !initial_state.right_done && !initial_state.up_done
            && !initial_state.down_done && one_slide_apart(initial_state.board@, end_state.board@)
            && max_rounds >= 1) ==> (r matches Some(path) && path@.len() == 2),
        (r matches Some(path) ==> {
            &&& path@.len() >= 1
            &&& path@[0].board@ == end_state.board@
            &&& path@[path@.len() - 1].board@ == initial_state.board@
            &&& (forall|k: int| 0 <= k < path@.len() ==> (#[trigger] path@[k]).wf())
            &&& (forall|k: int|
                0 <= k < path@.len() - 1 ==> single_step_boards(
                    (#[trigger] path@[k]).board@,
                    path@[k + 1].board@,
                ) && path@[k + 1].range < path@[k].range)
        }),
        r is None ==> initial_state.board@ != end_state.board@,
{
    proof {
        if one_slide_apart(initial_state.board@, end_state.board@) {
            lemma_one_slide_apart_ne(initial_state.board@, end_state.board@);
        }
    }
    // A start equal to the goal needs no search at all.
    if !initial_state.is_diff_board(&end_state) {
        let mut path: Vec<BoardState> = Vec::new();
        path.push(initial_state);
        return Some(path);
    }
    let ghost init_board = initial_state.board@;
    let ghost goal = end_state.board@;

    let mut states: Vec<Vec<BoardState>> = Vec::new();
    let mut b: usize = 0;
    while b < BOARD_CELLS
        invariant
            b <= 16,
            states@.len() == b,
            forall|c: int| 0 <= c < b ==> (#[trigger] states@[c])@.len() == 0,
        decreases 16 - b,
    {
        states.push(Vec::new());
        b = b + 1;
    }
    let zp = initial_state.zero_pos;
    let ghost init_node = initial_state;
    let ghost special = !init_node.left_done && !init_node.right_done && !init_node.up_done
        && !init_node.down_done && one_slide_apart(init_board, goal) && max_rounds >= 1;
    states[zp].push(initial_state);
    proof {
        assert(frontier_wf(states@)) by {
            assert(forall|b: int, i: int|
                valid_at(states@, b, i) ==> node_at(states@, b, i) == init_node);
        }
        assert(pred_inv(states@, init_board));
        assert(ranges_at_most(states@, 0));
    }

    // The rotating bucket cursor starts at the start state's own bucket
    // and advances once per round, whatever the round achieved.
    let mut solution_found = false;
    let mut round: usize = 0;
    let mut states_amount: usize = 0;
    while !solution_found && round < max_rounds
        invariant
            frontier_wf(states@),
            pred_inv(states@, init_board),
            ranges_at_most(states@, round as int),
            end_state.wf(),
            goal == end_state.board@,
            zp < 16,
            init_node.wf() && init_node.zero_pos == zp && init_node.board@ == init_board,
            special ==> (init_node.can_move_spec() && one_slide_apart(init_board, goal)
                && max_rounds >= 1),
            special ==> (round == 0 || (solution_found && round == 1)),
            round == 0 ==> (!solution_found && states@[zp as int]@.len() == 1
                && states@[zp as int]@[0] == init_node),
            round <= max_rounds,
            max_rounds <= ROUND_LIMIT,
            states_amount <= 1 + 4 * round,
            solution_found ==> goal_present(states@, goal),
        decreases max_rounds - round,
    {
        let bucket = (zp + round) % BOARD_CELLS;
        round = round + 1;
        let ghost pre = states@;
        proof {
            assert(bucket_wf(pre[bucket as int]@) && forall|i: int|
                0 <= i < pre[bucket as int]@.len() ==> (#[trigger] pre[bucket as int]@[i]).range
                    < u32::MAX) by {
                assert(forall|i: int|
                    0 <= i < pre[bucket as int]@.len() ==> #[trigger] pre[bucket as int]@[i]
                        == node_at(pre, bucket as int, i) && valid_at(pre, bucket as int, i));
            }
        }
        let mut succs = get_not_activated_state(&mut states, bucket, &end_state);
        proof {
            if special && round == 1 {
                // First round: the cursor sits on the start's bucket,
                // whose only state is the fresh start, so it is expanded.
                assert(bucket == zp);
                assert(0 <= 0 < pre[bucket as int]@.len() && (#[trigger] pre[bucket as int]@[0]).can_move_spec());
            }
            if exists|i: int|
                0 <= i < pre[bucket as int]@.len() && (#[trigger] pre[bucket as int]@[i]).can_move_spec() {
                let sel = choose|sel: int|
                    {
                        &&& expanded_at(pre, states@, succs@, bucket as int, sel)
                        &&& (#[trigger] pre[bucket as int]@[sel]).can_move_spec()
                        &&& (forall|j: int|
                            0 <= j < pre[bucket as int]@.len() && (#[trigger] pre[bucket as int]@[j]).can_move_spec()
                                ==> diff_spec(pre[bucket as int]@[sel].board@, end_state.board@)
                                <= diff_spec(pre[bucket as int]@[j].board@, end_state.board@))
                        &&& (forall|j: int|
                            0 <= j < sel && (#[trigger] pre[bucket as int]@[j]).can_move_spec()
                                ==> diff_spec(pre[bucket as int]@[j].board@, end_state.board@)
                                > diff_spec(pre[bucket as int]@[sel].board@, end_state.board@))
                    };
                assert(expanded_at(pre, states@, succs@, bucket as int, sel));
                if special && round == 1 {
                    lemma_first_round_finds_goal(pre, states@, succs@, init_node, zp as int, goal);
                }
            }
            lemma_after_expansion(pre, states@, succs@, bucket as int, init_board, round as int);
        }
        while succs.len() > 0
            invariant
                frontier_wf(states@),
                pred_inv(states@, init_board),
                ranges_at_most(states@, round as int),
                end_state.wf(),
                goal == end_state.board@,
                round <= max_rounds,
                max_rounds <= ROUND_LIMIT,
                states_amount + succs@.len() <= 1 + 4 * round,
                forall|k: int|
                    0 <= k < succs@.len() ==> pending_ok(states@, #[trigger] succs@[k], round as int),
                solution_found ==> goal_present(states@, goal),
                (special && round == 1) ==> (solution_found || exists|k: int|
                    0 <= k < succs@.len() && (#[trigger] succs@[k]).board@ == goal),
            decreases succs@.len(),
        {
            let ghost succs_pre = succs@;
            let new_state = succs.remove(0);
            let is_goal = !end_state.is_diff_board(&new_state);
            let zp = new_state.zero_pos;
            let ghost pre_ins = states@;
            let ghost s_ghost = new_state;
            proof {
                assert(bucket_wf(pre_ins[zp as int]@) && bucket_distinct(pre_ins[zp as int]@)) by {
                    assert(forall|i: int|
                        0 <= i < pre_ins[zp as int]@.len() ==> #[trigger] pre_ins[zp as int]@[i]
                            == node_at(pre_ins, zp as int, i) && valid_at(pre_ins, zp as int, i));
                }
            }
            states_amount = update_states_list(&mut states[zp], new_state, states_amount);
            proof {
                if exists|i: int|
                    0 <= i < pre_ins[zp as int]@.len() && (#[trigger] pre_ins[zp as int]@[i]).board@
                        == s_ghost.board@ {
                    let i = choose|i: int|
                        0 <= i < pre_ins[zp as int]@.len() && (#[trigger] pre_ins[zp as int]@[i]).board@
                            == s_ghost.board@;
                    assert(dominance_resolved(pre_ins[zp as int]@, states@[zp as int]@, s_ghost, i));
                }
                lemma_after_insert(
                    pre_ins,
                    states@,
                    s_ghost,
                    zp as int,
                    init_board,
                    round as int,
                );
                if solution_found {
                    lemma_goal_present_evolves(pre_ins, states@, goal);
                }
                assert(forall|k: int|
                    0 <= k < succs@.len() ==> pending_ok(
                        states@,
                        #[trigger] succs@[k],
                        round as int,
                    )) by {
                    assert forall|k: int| 0 <= k < succs@.len() implies pending_ok(
                        states@,
                        #[trigger] succs@[k],
                        round as int,
                    ) by {
                        lemma_has_pred_evolves(pre_ins, states@, succs@[k]);
                    }
                }
            }
            proof {
                if special && round == 1 && !solution_found && !is_goal {
                    // The goal-holding successor is still among the rest.
                    let k = choose|k: int|
                        0 <= k < succs_pre.len() && (#[trigger] succs_pre[k]).board@ == goal;
                    assert(succs@[k - 1].board@ == goal);
                }
            }
            if is_goal {
                solution_found = true;
            }
        }
    }
    if !solution_found {
        proof {
            if special {
                assert(round == 0 && max_rounds >= 1 && round >= max_rounds);
                assert(false);
            }
        }
        return None;
    }
    proof {
        if special {
            assert(solution_found && round == 1);
        }
    }
    let path = reconstruct_path(states, &end_state, Ghost(init_board), Ghost(round as int));
    proof {
        if special {
            assert(path@.len() != 1) by {
                if path@.len() == 1 {
                    assert(init_board == goal);
                }
            }
            assert(path@.len() <= 2) by {
                if path@.len() >= 3 {
                    assert(path@[0].range <= 1);
                    assert(path@[1].range < path@[0].range);
                    assert(path@[2].range < path@[1].range);
                }
            }
        }
    }
    Some(path)
}

} // verus!
