//! The computer opponent: depth-limited minimax with alpha-beta pruning and
//! the dots-and-boxes "extra turn on completion" rule.
//!
//! The search is a pure function of a board, a depth bound, the two pruning
//! bounds, and whose turn it is. Every candidate move is applied to a cloned
//! board; the best reachable board (one move applied) and its score come
//! back. Completing a square keeps the turn with the same player, so the
//! maximizing flag follows completions rather than strict alternation, and
//! pruning is only applied at nodes where no sibling grants an extra turn.

use vstd::prelude::*;
use crate::board::Board;
use crate::board::BoardModel;
use crate::board::Line;
use crate::board::MAX_DIM;
use crate::board::MAX_OFFSET;
use crate::board::Player;
use crate::board::board_complete;
use crate::board::commit;
use crate::board::lemma_marked_total_bound;
use crate::board::line_committed;
use crate::board::rescan;
use crate::board::wf;
use crate::geometry::lemma_mul_bound;

verus! {

/// The board after `player` draws `l` on `m` and the squares are rescanned
/// for `player`: one full move.
pub open spec fn child_board(m: BoardModel, l: Line, player: Player) -> BoardModel {
    rescan(commit(m, l), player)
}

/// The horizontal grid edge in row `j` from column `i` to column `i + 1`,
/// labeled with `player`.
pub open spec fn h_edge(m: BoardModel, j: int, i: int, player: Player) -> Line {
    Line {
        x1: ((m.start_x as int + i * (m.step_x as int)) as i64),
        y1: ((m.start_y as int + j * (m.step_y as int)) as i64),
        x2: ((m.start_x as int + (i + 1) * (m.step_x as int)) as i64),
        y2: ((m.start_y as int + j * (m.step_y as int)) as i64),
        marked_by: player,
    }
}

/// The vertical grid edge in column `j` from row `i` to row `i + 1`,
/// labeled with `player`.
pub open spec fn v_edge(m: BoardModel, i: int, j: int, player: Player) -> Line {
    Line {
        x1: ((m.start_x as int + j * (m.step_x as int)) as i64),
        y1: ((m.start_y as int + i * (m.step_y as int)) as i64),
        x2: ((m.start_x as int + j * (m.step_x as int)) as i64),
        y2: ((m.start_y as int + (i + 1) * (m.step_y as int)) as i64),
        marked_by: player,
    }
}

/// The boards reachable by drawing one of the first `t` horizontal edges
/// (row-major: edge `t` lies in row `t / (width - 1)`) that is not already
/// committed.
pub open spec fn children_h_upto(m: BoardModel, player: Player, t: int) -> Seq<BoardModel>
    decreases t,
{
    if t <= 0 {
        Seq::empty()
    } else {
        let prev = children_h_upto(m, player, t - 1);
        let l = h_edge(m, (t - 1) / (m.width - 1) as int, (t - 1) % (m.width - 1) as int, player);
        if line_committed(m, l) {
            prev
        } else {
            prev.push(child_board(m, l, player))
        }
    }
}

/// The boards reachable by drawing one of the first `t` vertical edges
/// (row-major: edge `t` lies in row `t / width`) that is not already
/// committed.
pub open spec fn children_v_upto(m: BoardModel, player: Player, t: int) -> Seq<BoardModel>
    decreases t,
{
    if t <= 0 {
        Seq::empty()
    } else {
        let prev = children_v_upto(m, player, t - 1);
        let l = v_edge(m, (t - 1) / (m.width as int), (t - 1) % (m.width as int), player);
        if line_committed(m, l) {
            prev
        } else {
            prev.push(child_board(m, l, player))
        }
    }
}

/// The full legal-move frontier of `m` for `player`: every grid edge,
/// horizontal first, that is not yet committed, each applied to its own
/// copy of the board and rescanned.
pub open spec fn children_spec(m: BoardModel, player: Player) -> Seq<BoardModel> {
    children_h_upto(m, player, (m.height as int) * ((m.width - 1) as int)) + children_v_upto(
        m,
        player,
        ((m.height - 1) as int) * (m.width as int),
    )
}

/// The player whose move it is at a node: the computer (`Player2`)
/// maximizes, the human (`Player1`) minimizes.
pub open spec fn mover(is_max: bool) -> Player {
    if is_max {
        Player::Player2
    } else {
        Player::Player1
    }
}

/// The claimed-square count of the node's mover, which grows exactly when
/// one of the mover's moves completes a square.
pub open spec fn mover_score(m: BoardModel, is_max: bool) -> int {
    if is_max {
        m.marked2.len() as int
    } else {
        m.marked1.len() as int
    }
}

/// The score of a terminal node: the computer's claimed-square count at a
/// maximizing terminal, the negated human count at a minimizing one.
pub open spec fn terminal_score(m: BoardModel, is_max: bool) -> int {
    if is_max {
        m.marked2.len() as int
    } else {
        -(m.marked1.len() as int)
    }
}

/// Every child of the node passes the turn: no move of the mover completes
/// a square. Only then may alpha-beta pruning cut the sibling loop, because
/// extra-turn children break the monotonicity the cut relies on.
pub open spec fn all_pass(m: BoardModel, children: Seq<BoardModel>, is_max: bool) -> bool {
    forall|i: int|
        0 <= i < children.len() ==> mover_score(#[trigger] children[i], is_max) == mover_score(
            m,
            is_max,
        )
}

/// One pass over the node's children from `idx` on, carrying the best value
/// and result found so far. Each child is scored one ply deeper: a child
/// that completed a square keeps the maximizing flag (its mover goes
/// again), any other child flips it. A strictly better child replaces the
/// running result, so ties keep the first-found best. After each child the
/// mover's bound is tightened with the running value and, only when every
/// sibling passes the turn, `alpha >= beta` ends the pass early.
pub open spec fn ab_loop(
    children: Seq<BoardModel>,
    idx: int,
    depth: nat,
    alpha: int,
    beta: int,
    is_max: bool,
    passes: bool,
    parent_score: int,
    value: int,
    result: (BoardModel, int),
) -> (BoardModel, int)
    decreases depth, children.len() - idx,
{
    if idx < 0 || idx >= children.len() || depth == 0 {
        result
    } else {
        let child = children[idx];
        let extra = mover_score(child, is_max) != parent_score;
        let sub = ab_spec(
            child,
            (depth - 1) as nat,
            alpha,
            beta,
            if extra {
                is_max
            } else {
                !is_max
            },
        );
        let better = if is_max {
            value < sub.1
        } else {
            value > sub.1
        };
        let value2 = if better {
            sub.1
        } else {
            value
        };
        let result2 = if better {
            (child, sub.1)
        } else {
            result
        };
        let cut = if is_max {
            (if alpha < value2 {
                value2
            } else {
                alpha
            }) >= beta
        } else {
            alpha >= (if beta > value2 {
                value2
            } else {
                beta
            })
        };
        if cut && passes {
            result2
        } else {
            ab_loop(
                children,
                idx + 1,
                depth,
                alpha,
                beta,
                is_max,
                passes,
                parent_score,
                value2,
                result2,
            )
        }
    }
}

/// Depth-limited minimax with alpha-beta pruning and the extra-turn rule,
/// as a pure function of board, depth, bounds and maximizing flag. A node
/// on a complete board, or out of depth, scores itself; any other node
/// tries every legal move of its mover in enumeration order and keeps the
/// best child board one move deep.
pub open spec fn ab_spec(m: BoardModel, depth: nat, alpha: int, beta: int, is_max: bool) -> (
    BoardModel,
    int,
)
    decreases depth, children_spec(m, mover(is_max)).len() + 1,
{
    if board_complete(m) || depth == 0 {
        (m, terminal_score(m, is_max))
    } else {
        let children = children_spec(m, mover(is_max));
        ab_loop(
            children,
            0,
            depth,
            alpha,
            beta,
            is_max,
            all_pass(m, children, is_max),
            mover_score(m, is_max),
            if is_max {
                i32::MIN as int
            } else {
                i32::MAX as int
            },
            (m, 0),
        )
    }
}

/// What one move of `player` keeps of the parent board: the catalog and
/// dimensions, the opponent's claimed collection, and at least the mover's
/// own claimed count.
pub open spec fn move_keeps(m: BoardModel, player: Player, c: BoardModel) -> bool {
    &&& c.squares == m.squares
    &&& c.width == m.width
    &&& c.height == m.height
    &&& (player == Player::Player2 ==> c.marked1 == m.marked1 && c.marked2.len()
        >= m.marked2.len())
    &&& (player == Player::Player1 ==> c.marked2 == m.marked2 && c.marked1.len()
        >= m.marked1.len())
}

proof fn lemma_children_h_keep(m: BoardModel, player: Player, t: int)
    ensures
        forall|i: int|
            0 <= i < children_h_upto(m, player, t).len() ==> move_keeps(
                m,
                player,
                #[trigger] children_h_upto(m, player, t)[i],
            ),
    decreases t,
{
    if t > 0 {
        lemma_children_h_keep(m, player, t - 1);
        let l = h_edge(m, (t - 1) / (m.width - 1) as int, (t - 1) % (m.width - 1) as int, player);
        let prev = children_h_upto(m, player, t - 1);
        if !line_committed(m, l) {
            let c = child_board(m, l, player);
            assert((commit(m, l).marked2 + crate::board::new_claims(commit(m, l))).len()
                == commit(m, l).marked2.len() + crate::board::new_claims(commit(m, l)).len());
            assert((commit(m, l).marked1 + crate::board::new_claims(commit(m, l))).len()
                == commit(m, l).marked1.len() + crate::board::new_claims(commit(m, l)).len());
            assert(move_keeps(m, player, c));
        }
        assert forall|i: int| 0 <= i < children_h_upto(m, player, t).len() implies move_keeps(
            m,
            player,
            #[trigger] children_h_upto(m, player, t)[i],
        ) by {
            if !line_committed(m, l) {
                if i < prev.len() {
                    assert(children_h_upto(m, player, t)[i] == prev[i]);
                    assert(move_keeps(m, player, prev[i]));
                } else {
                    assert(children_h_upto(m, player, t)[i] == child_board(m, l, player));
                }
            } else {
                assert(children_h_upto(m, player, t)[i] == prev[i]);
                assert(move_keeps(m, player, prev[i]));
            }
        }
    }
}

proof fn lemma_children_v_keep(m: BoardModel, player: Player, t: int)
    ensures
        forall|i: int|
            0 <= i < children_v_upto(m, player, t).len() ==> move_keeps(
                m,
                player,
                #[trigger] children_v_upto(m, player, t)[i],
            ),
    decreases t,
{
    if t > 0 {
        lemma_children_v_keep(m, player, t - 1);
        let l = v_edge(m, (t - 1) / (m.width as int), (t - 1) % (m.width as int), player);
        let prev = children_v_upto(m, player, t - 1);
        if !line_committed(m, l) {
            let c = child_board(m, l, player);
            assert((commit(m, l).marked2 + crate::board::new_claims(commit(m, l))).len()
                == commit(m, l).marked2.len() + crate::board::new_claims(commit(m, l)).len());
            assert((commit(m, l).marked1 + crate::board::new_claims(commit(m, l))).len()
                == commit(m, l).marked1.len() + crate::board::new_claims(commit(m, l)).len());
            assert(move_keeps(m, player, c));
        }
        assert forall|i: int| 0 <= i < children_v_upto(m, player, t).len() implies move_keeps(
            m,
            player,
            #[trigger] children_v_upto(m, player, t)[i],
        ) by {
            if !line_committed(m, l) {
                if i < prev.len() {
                    assert(children_v_upto(m, player, t)[i] == prev[i]);
                    assert(move_keeps(m, player, prev[i]));
                } else {
                    assert(children_v_upto(m, player, t)[i] == child_board(m, l, player));
                }
            } else {
                assert(children_v_upto(m, player, t)[i] == prev[i]);
                assert(move_keeps(m, player, prev[i]));
            }
        }
    }
}

/// Every child of `m` for `player` is `m` after one of `player`'s moves: it
/// keeps the catalog and the opponent's squares, and can only grow the
/// mover's claimed count.
pub proof fn lemma_children_keep(m: BoardModel, player: Player)
    ensures
        forall|i: int|
            0 <= i < children_spec(m, player).len() ==> move_keeps(
                m,
                player,
                #[trigger] children_spec(m, player)[i],
            ),
{
    lemma_children_h_keep(m, player, (m.height as int) * ((m.width - 1) as int));
    lemma_children_v_keep(m, player, ((m.height - 1) as int) * (m.width as int));
    let hpart = children_h_upto(m, player, (m.height as int) * ((m.width - 1) as int));
    let vpart = children_v_upto(m, player, ((m.height - 1) as int) * (m.width as int));
    assert forall|i: int| 0 <= i < children_spec(m, player).len() implies move_keeps(
        m,
        player,
        #[trigger] children_spec(m, player)[i],
    ) by {
        if i < hpart.len() {
            assert(children_spec(m, player)[i] == hpart[i]);
        } else {
            assert(children_spec(m, player)[i] == vpart[i - hpart.len()]);
        }
    }
}

/// The sibling pass of a maximizing one-ply search keeps or finds a
/// completing child: once the running value is positive the running result
/// completed a square, and as long as it is not, a completing child is
/// still ahead.
proof fn lemma_ab_loop_depth_one(
    children: Seq<BoardModel>,
    idx: int,
    alpha: int,
    beta: int,
    parent2: int,
    value: int,
    result: (BoardModel, int),
)
    requires
        0 <= idx <= children.len(),
        parent2 >= 0,
        forall|i: int| 0 <= i < children.len() ==> (#[trigger] children[i]).marked2.len()
            >= parent2,
        value >= 1 ==> result.0.marked2.len() > parent2,
        value < 1 ==> exists|i: int|
            idx <= i < children.len() && (#[trigger] children[i]).marked2.len() > parent2,
    ensures
        ab_loop(children, idx, 1, alpha, beta, true, false, parent2, value, result).0.marked2.len()
            > parent2,
    decreases children.len() - idx,
{
    if idx < children.len() {
        let child = children[idx];
        let extra = mover_score(child, true) != parent2;
        let sub = ab_spec(
            child,
            0,
            alpha,
            beta,
            if extra {
                true
            } else {
                false
            },
        );
        assert(sub == (child, terminal_score(
            child,
            if extra {
                true
            } else {
                false
            },
        )));
        let better = value < sub.1;
        let value2 = if better {
            sub.1
        } else {
            value
        };
        let result2 = if better {
            (child, sub.1)
        } else {
            result
        };
        if extra {
            assert(child.marked2.len() > parent2);
            assert(sub.1 == child.marked2.len() as int);
            assert(sub.1 >= 1);
            assert(value2 >= 1 && result2.0.marked2.len() > parent2);
        } else {
            assert(sub.1 == -(child.marked1.len() as int));
            assert(sub.1 <= 0);
            if value2 < 1 {
                let w = choose|i: int|
                    idx <= i < children.len() && (#[trigger] children[i]).marked2.len() > parent2;
                assert(w != idx);
                assert(idx + 1 <= w < children.len() && children[w].marked2.len() > parent2);
            }
        }
        lemma_ab_loop_depth_one(children, idx + 1, alpha, beta, parent2, value2, result2);
    }
}

/// A maximizing search of depth one takes a completing move whenever one
/// exists: if some legal move completes a square for the computer, the
/// board that comes back holds strictly more computer squares than its
/// parent, whatever the bounds. (At greater depths the extra-turn rule can
/// let a deeper line outweigh an immediate completion, so the law is
/// stated for the one-ply search.)
pub proof fn lemma_depth_one_takes_completion(m: BoardModel, alpha: int, beta: int)
    requires
        !board_complete(m),
        exists|i: int|
            0 <= i < children_spec(m, Player::Player2).len() && (#[trigger] children_spec(
                m,
                Player::Player2,
            )[i]).marked2.len() > m.marked2.len(),
    ensures
        ab_spec(m, 1, alpha, beta, true).0.marked2.len() > m.marked2.len(),
{
    lemma_children_keep(m, Player::Player2);
    let children = children_spec(m, Player::Player2);
    assert(mover(true) == Player::Player2);
    let i0 = choose|i: int|
        0 <= i < children.len() && (#[trigger] children[i]).marked2.len() > m.marked2.len();
    assert(mover_score(children[i0], true) != mover_score(m, true));
    assert(!all_pass(m, children, true));
    lemma_ab_loop_depth_one(
        children,
        0,
        alpha,
        beta,
        m.marked2.len() as int,
        i32::MIN as int,
        (m, 0),
    );
}

/// The sibling pass hands back either the result it started with or one of
/// the children it visited.
proof fn lemma_ab_loop_result(
    children: Seq<BoardModel>,
    idx: int,
    depth: nat,
    alpha: int,
    beta: int,
    is_max: bool,
    passes: bool,
    parent_score: int,
    value: int,
    result: (BoardModel, int),
)
    ensures
        ({
            let r = ab_loop(
                children,
                idx,
                depth,
                alpha,
                beta,
                is_max,
                passes,
                parent_score,
                value,
                result,
            );
            r == result || exists|i: int| idx <= i < children.len() && r.0 == #[trigger] children[i]
        }),
    decreases depth, children.len() - idx,
{
    if !(idx < 0 || idx >= children.len() || depth == 0) {
        let child = children[idx];
        let extra = mover_score(child, is_max) != parent_score;
        let sub = ab_spec(
            child,
            (depth - 1) as nat,
            alpha,
            beta,
            if extra {
                is_max
            } else {
                !is_max
            },
        );
        let better = if is_max {
            value < sub.1
        } else {
            value > sub.1
        };
        let value2 = if better {
            sub.1
        } else {
            value
        };
        let result2 = if better {
            (child, sub.1)
        } else {
            result
        };
        let cut = if is_max {
            (if alpha < value2 {
                value2
            } else {
                alpha
            }) >= beta
        } else {
            alpha >= (if beta > value2 {
                value2
            } else {
                beta
            })
        };
        if cut && passes {
        } else {
            lemma_ab_loop_result(
                children,
                idx + 1,
                depth,
                alpha,
                beta,
                is_max,
                passes,
                parent_score,
                value2,
                result2,
            );
        }
    }
}

/// A maximizing search hands back the board itself or one of the
/// computer's moves on it: the human's squares are untouched, the catalog
/// and dimensions are kept, and the computer's claimed count never shrinks.
pub proof fn lemma_search_keeps(m: BoardModel, depth: nat, alpha: int, beta: int)
    ensures
        ({
            let r = ab_spec(m, depth, alpha, beta, true).0;
            &&& r.marked2.len() >= m.marked2.len()
            &&& r.marked1 == m.marked1
            &&& r.squares == m.squares
            &&& r.width == m.width
            &&& r.height == m.height
        }),
{
    if board_complete(m) || depth == 0 {
    } else {
        let children = children_spec(m, mover(true));
        lemma_children_keep(m, Player::Player2);
        lemma_ab_loop_result(
            children,
            0,
            depth,
            alpha,
            beta,
            true,
            all_pass(m, children, true),
            mover_score(m, true),
            i32::MIN as int,
            (m, 0),
        );
        let r = ab_spec(m, depth, alpha, beta, true);
        if r != (m, 0int) {
            let i = choose|i: int| 0 <= i < children.len() && r.0 == #[trigger] children[i];
            assert(move_keeps(m, Player::Player2, children[i]));
        }
    }
}

/// What the computer's whole turn leaves behind: the best move of one
/// search, then, while the chosen move completed a square (an extra turn),
/// the best move of another search on the updated board, until a search
/// gains nothing. `fuel` bounds the chain; a square is completed on every
/// continued step, so any fuel beyond the catalog size never runs out.
pub open spec fn computer_turn_spec(m: BoardModel, depth: nat, fuel: nat) -> BoardModel
    decreases fuel,
{
    let nxt = ab_spec(m, depth, i32::MIN as int, i32::MAX as int, true).0;
    if nxt.marked2.len() == m.marked2.len() {
        nxt
    } else if fuel == 0 {
        nxt
    } else {
        computer_turn_spec(nxt, depth, (fuel - 1) as nat)
    }
}

/// The search result is a pure function of board, depth, bounds and
/// maximizing flag: equal inputs give equal boards and scores, with no
/// hidden state or randomness.
pub proof fn lemma_alphabeta_deterministic(
    a: BoardModel,
    b: BoardModel,
    depth: nat,
    alpha: int,
    beta: int,
    is_max: bool,
)
    requires
        a == b,
    ensures
        ab_spec(a, depth, alpha, beta, is_max) == ab_spec(b, depth, alpha, beta, is_max),
{
}

/// The stateless search engine.
pub struct MinMax {}

impl MinMax {
    pub fn new() -> (r: MinMax)
        ensures
            r == (MinMax {  }),
    {
        MinMax {  }
    }

    /// The legal-move frontier: one cloned board per uncommitted grid edge,
    /// with the edge committed and the squares rescanned for `player`.
    #[verifier::rlimit(50)]
    fn get_children(&self, board: &Board, player: Player) -> (children: Vec<Board>)
        requires
            wf(board@),
        ensures
            children@.map_values(|c: Board| c@) == children_spec(board@, player),
            forall|i: int| 0 <= i < children@.len() ==> wf(#[trigger] children@[i]@),
    {
        let mut children: Vec<Board> = Vec::new();
        let w = board.get_width();
        let h = board.get_height();
        let sx = board.start_x;
        let sy = board.start_y;
        let stx = board.step_x;
        let sty = board.step_y;
        let wu = w as usize;
        let hu = h as usize;
        proof {
            assert(children@.map_values(|c: Board| c@) =~= children_h_upto(
                board@,
                player,
                0 * ((w - 1) as int),
            ));
        }
        for j in 0..hu
            invariant
                wf(board@),
                w == board@.width,
                h == board@.height,
                sx == board@.start_x,
                sy == board@.start_y,
                stx == board@.step_x,
                sty == board@.step_y,
                wu == w as int,
                hu == h as int,
                children@.map_values(|c: Board| c@) == children_h_upto(
                    board@,
                    player,
                    j * ((w - 1) as int),
                ),
                forall|i: int| 0 <= i < children@.len() ==> wf(#[trigger] children@[i]@),
        {
            for i in 0..(wu - 1)
                invariant
                    wf(board@),
                    w == board@.width,
                    h == board@.height,
                    sx == board@.start_x,
                    sy == board@.start_y,
                    stx == board@.step_x,
                    sty == board@.step_y,
                    wu == w as int,
                    hu == h as int,
                    j < hu,
                    children@.map_values(|c: Board| c@) == children_h_upto(
                        board@,
                        player,
                        j * ((w - 1) as int) + i,
                    ),
                    forall|t: int| 0 <= t < children@.len() ==> wf(#[trigger] children@[t]@),
            {
                proof {
                    lemma_mul_bound(i as int, stx as int, MAX_DIM as int, MAX_OFFSET as int);
                    lemma_mul_bound(j as int, sty as int, MAX_DIM as int, MAX_OFFSET as int);
                    vstd::arithmetic::div_mod::lemma_fundamental_div_mod_converse(
                        j * ((w - 1) as int) + i,
                        (w - 1) as int,
                        j as int,
                        i as int,
                    );
                    assert((i + 1) * (stx as int) == i * (stx as int) + stx) by (nonlinear_arith);
                }
                let line = Line::new(
                    sx + (i as i64) * stx,
                    sy + (j as i64) * sty,
                    sx + stx + (i as i64) * stx,
                    sy + (j as i64) * sty,
                    player,
                );
                proof {
                    assert(line == h_edge(board@, j as int, i as int, player));
                }
                if !board.contains_line(&line) {
                    let mut cloned = board.clone();
                    cloned.add_line(line);
                    cloned.update_squares(player);
                    children.push(cloned);
                    proof {
                        assert(children@.map_values(|c: Board| c@) =~= children_h_upto(
                            board@,
                            player,
                            j * ((w - 1) as int) + i + 1,
                        ));
                    }
                } else {
                    proof {
                        assert(children@.map_values(|c: Board| c@) =~= children_h_upto(
                            board@,
                            player,
                            j * ((w - 1) as int) + i + 1,
                        ));
                    }
                }
            }
            proof {
                assert((j + 1) * ((w - 1) as int) == j * ((w - 1) as int) + (w - 1))
                    by (nonlinear_arith);
            }
        }
        proof {
            assert(hu * ((w - 1) as int) == (h as int) * ((w - 1) as int));
            assert(children@.map_values(|c: Board| c@) =~= children_h_upto(
                board@,
                player,
                (h as int) * ((w - 1) as int),
            ) + children_v_upto(board@, player, 0 * (w as int)));
        }
        for i in 0..(hu - 1)
            invariant
                wf(board@),
                w == board@.width,
                h == board@.height,
                sx == board@.start_x,
                sy == board@.start_y,
                stx == board@.step_x,
                sty == board@.step_y,
                wu == w as int,
                hu == h as int,
                children@.map_values(|c: Board| c@) == children_h_upto(
                    board@,
                    player,
                    (h as int) * ((w - 1) as int),
                ) + children_v_upto(board@, player, i * (w as int)),
                forall|t: int| 0 <= t < children@.len() ==> wf(#[trigger] children@[t]@),
        {
            for j in 0..wu
                invariant
                    wf(board@),
                    w == board@.width,
                    h == board@.height,
                    sx == board@.start_x,
                    sy == board@.start_y,
                    stx == board@.step_x,
                    sty == board@.step_y,
                    wu == w as int,
                    hu == h as int,
                    i < hu - 1,
                    children@.map_values(|c: Board| c@) == children_h_upto(
                        board@,
                        player,
                        (h as int) * ((w - 1) as int),
                    ) + children_v_upto(board@, player, i * (w as int) + j),
                    forall|t: int| 0 <= t < children@.len() ==> wf(#[trigger] children@[t]@),
            {
                proof {
                    lemma_mul_bound(j as int, stx as int, MAX_DIM as int, MAX_OFFSET as int);
                    lemma_mul_bound(i as int, sty as int, MAX_DIM as int, MAX_OFFSET as int);
                    vstd::arithmetic::div_mod::lemma_fundamental_div_mod_converse(
                        i * (w as int) + j,
                        w as int,
                        i as int,
                        j as int,
                    );
                    assert((i + 1) * (sty as int) == i * (sty as int) + sty) by (nonlinear_arith);
                }
                let line = Line::new(
                    sx + (j as i64) * stx,
                    sy + (i as i64) * sty,
                    sx + (j as i64) * stx,
                    sy + sty + (i as i64) * sty,
                    player,
                );
                proof {
                    assert(line == v_edge(board@, i as int, j as int, player));
                }
                if !board.contains_line(&line) {
                    let mut cloned = board.clone();
                    cloned.add_line(line);
                    cloned.update_squares(player);
                    let ghost hpart = children_h_upto(board@, player, (h as int) * ((w - 1) as int));
                    let ghost vpart = children_v_upto(board@, player, i * (w as int) + j);
                    let ghost target = hpart + children_v_upto(board@, player, i * (w as int) + j + 1);
                    let ghost pre = children@;
                    proof {
                        assert(cloned@ == child_board(board@, line, player));
                        assert(children_v_upto(board@, player, i * (w as int) + j + 1)
                            == vpart.push(child_board(board@, line, player)));
                        assert(pre.map_values(|c: Board| c@) == hpart + vpart);
                        assert(pre.map_values(|c: Board| c@).len() == pre.len());
                        assert((hpart + vpart).len() == hpart.len() + vpart.len());
                        assert(pre.len() == hpart.len() + vpart.len());
                    }
                    children.push(cloned);
                    proof {
                        assert(children@ == pre.push(cloned));
                        assert forall|q: int| 0 <= q < target.len() implies children@.map_values(
                            |c: Board| c@,
                        )[q] == target[q] by {
                            assert(children@.map_values(|c: Board| c@)[q] == children@[q]@);
                            if q < pre.len() {
                                assert(children@[q] == pre[q]);
                                assert(pre.map_values(|c: Board| c@)[q] == pre[q]@);
                                assert((hpart + vpart)[q] == target[q]);
                            } else {
                                assert(children@[q] == cloned);
                                assert(target[q] == child_board(board@, line, player));
                            }
                        }
                        assert(children@.map_values(|c: Board| c@) =~= target);
                    }
                } else {
                    proof {
                        assert(children@.map_values(|c: Board| c@) =~= children_h_upto(
                            board@,
                            player,
                            (h as int) * ((w - 1) as int),
                        ) + children_v_upto(board@, player, i * (w as int) + j + 1));
                    }
                }
            }
            proof {
                assert((i + 1) * (w as int) == i * (w as int) + w) by (nonlinear_arith);
            }
        }
        proof {
            assert(((hu - 1) as int) * (w as int) == ((h - 1) as int) * (w as int));
        }
        children
    }

    /// MinMax with alpha-beta pruning and the extra-turn rule: returns the
    /// best reachable board (one move of the current mover applied) and its
    /// score. The result is a pure function of the arguments; on a complete
    /// board or at depth zero the board itself comes back with its terminal
    /// score.
    pub fn alphabeta(
        &mut self,
        board: &Board,
        max_depth: u8,
        alpha: i32,
        beta: i32,
        is_max: bool,
    ) -> (r: (Board, i32))
        requires
            wf(board@),
        ensures
            (r.0@, r.1 as int) == ab_spec(
                board@,
                max_depth as nat,
                alpha as int,
                beta as int,
                is_max,
            ),
            wf(r.0@),
        decreases max_depth,
    {
        proof {
            lemma_marked_total_bound(board@);
            lemma_mul_bound(
                (board@.width - 1) as int,
                (board@.height - 1) as int,
                MAX_DIM as int,
                MAX_DIM as int,
            );
        }
        if board.is_complete() || max_depth == 0 {
            let score: i32 = if is_max {
                board.get_marked_by_player_2().len() as i32
            } else {
                -(board.get_marked_by_player_1().len() as i32)
            };
            return (board.clone(), score);
        }
        let parent_score: usize = if is_max {
            board.get_marked_by_player_2().len()
        } else {
            board.get_marked_by_player_1().len()
        };
        let player = if is_max {
            Player::Player2
        } else {
            Player::Player1
        };
        let children = self.get_children(board, player);
        let ghost cs = children@.map_values(|c: Board| c@);
        let n = children.len();
        let mut passes = true;
        for t in 0..n
            invariant
                n == children@.len(),
                cs == children@.map_values(|c: Board| c@),
                cs.len() == n,
                parent_score == mover_score(board@, is_max),
                passes == (forall|q: int|
                    0 <= q < t ==> mover_score(#[trigger] cs[q], is_max) == parent_score),
        {
            proof {
                assert(cs[t as int] == children@[t as int]@);
            }
            let c_score: usize = if is_max {
                children[t].marked_squares_by_player_2.len()
            } else {
                children[t].marked_squares_by_player_1.len()
            };
            if c_score != parent_score {
                passes = false;
            }
        }
        proof {
            assert(passes == all_pass(board@, cs, is_max));
        }
        let mut value: i32 = if is_max {
            i32::MIN
        } else {
            i32::MAX
        };
        let mut result: (Board, i32) = (board.clone(), 0);
        let mut idx: usize = 0;
        while idx < n
            invariant_except_break
                idx <= n,
                n == children@.len(),
                cs == children@.map_values(|c: Board| c@),
                cs.len() == n,
                forall|q: int| 0 <= q < children@.len() ==> wf(#[trigger] children@[q]@),
                wf(board@),
                wf(result.0@),
                max_depth >= 1,
                !board_complete(board@),
                passes == all_pass(board@, cs, is_max),
                parent_score == mover_score(board@, is_max),
                cs == children_spec(board@, mover(is_max)),
                ab_loop(
                    cs,
                    idx as int,
                    max_depth as nat,
                    alpha as int,
                    beta as int,
                    is_max,
                    passes,
                    parent_score as int,
                    value as int,
                    (result.0@, result.1 as int),
                ) == ab_spec(board@, max_depth as nat, alpha as int, beta as int, is_max),
            ensures
                (result.0@, result.1 as int) == ab_spec(
                    board@,
                    max_depth as nat,
                    alpha as int,
                    beta as int,
                    is_max,
                ),
                wf(result.0@),
            decreases n - idx,
        {
            let ghost value0 = value as int;
            let ghost result0 = (result.0@, result.1 as int);
            proof {
                assert(cs[idx as int] == children@[idx as int]@);
            }
            let c_score: usize = if is_max {
                children[idx].marked_squares_by_player_2.len()
            } else {
                children[idx].marked_squares_by_player_1.len()
            };
            let extra = c_score != parent_score;
            let sub = if extra {
                self.alphabeta(&children[idx], max_depth - 1, alpha, beta, is_max)
            } else {
                self.alphabeta(&children[idx], max_depth - 1, alpha, beta, !is_max)
            };
            let better = if is_max {
                value < sub.1
            } else {
                value > sub.1
            };
            if better {
                value = sub.1;
                result = (children[idx].clone(), sub.1);
            }
            let cut: bool;
            if is_max {
                let alpha_local = if alpha < value {
                    value
                } else {
                    alpha
                };
                cut = alpha_local >= beta;
            } else {
                let beta_local = if beta > value {
                    value
                } else {
                    beta
                };
                cut = alpha >= beta_local;
            }
            proof {
                assert(ab_loop(
                    cs,
                    idx as int,
                    max_depth as nat,
                    alpha as int,
                    beta as int,
                    is_max,
                    passes,
                    parent_score as int,
                    value0,
                    result0,
                ) == (if cut && passes {
                    (result.0@, result.1 as int)
                } else {
                    ab_loop(
                        cs,
                        idx + 1 as int,
                        max_depth as nat,
                        alpha as int,
                        beta as int,
                        is_max,
                        passes,
                        parent_score as int,
                        value as int,
                        (result.0@, result.1 as int),
                    )
                }));
            }
            if cut && passes {
                break ;
            }
            idx = idx + 1;
        }
        result
    }

    /// The computer's whole turn: one search, and another while the chosen
    /// move completed a square, since completing grants the mover an extra
    /// move, until a search gains nothing. The last searched board, with
    /// the whole chain of computer moves applied, replaces the live one.
    pub fn play_computer_turn(&mut self, board: &Board, max_depth: u8) -> (r: Board)
        requires
            wf(board@),
        ensures
            wf(r@),
            r@ == computer_turn_spec(
                board@,
                max_depth as nat,
                (board@.squares.len() + 1) as nat,
            ),
    {
        let ghost d = max_depth as nat;
        let ghost f0 = (board@.squares.len() + 1) as nat;
        let mut previous = board.get_marked_by_player_2().len();
        let step = self.alphabeta(board, max_depth, i32::MIN, i32::MAX, true);
        let mut current_board = step.0;
        let mut current = current_board.get_marked_by_player_2().len();
        let ghost mut fuel: nat = 0;
        proof {
            lemma_search_keeps(board@, d, i32::MIN as int, i32::MAX as int);
            lemma_marked_total_bound(current_board@);
            if previous != current {
                fuel = (f0 - 1) as nat;
                assert(computer_turn_spec(board@, d, f0) == computer_turn_spec(
                    current_board@,
                    d,
                    fuel,
                ));
            }
        }
        loop
            invariant_except_break
                wf(current_board@),
                d == max_depth as nat,
                current == current_board@.marked2.len(),
                current <= board@.squares.len(),
                current_board@.squares == board@.squares,
                previous != current ==> computer_turn_spec(board@, d, f0) == computer_turn_spec(
                    current_board@,
                    d,
                    fuel,
                ) && fuel + current > board@.squares.len(),
                previous == current ==> computer_turn_spec(board@, d, f0) == current_board@,
            ensures
                wf(current_board@),
                computer_turn_spec(board@, d, f0) == current_board@,
            decreases board@.squares.len() + 1 - current, (if previous != current {
                1int
            } else {
                0int
            }),
        {
            if previous == current {
                break ;
            }
            proof {
                lemma_marked_total_bound(current_board@);
                lemma_search_keeps(current_board@, d, i32::MIN as int, i32::MAX as int);
            }
            previous = current;
            let step = self.alphabeta(&current_board, max_depth, i32::MIN, i32::MAX, true);
            let ghost before = current_board@;
            current_board = step.0;
            current = current_board.get_marked_by_player_2().len();
            proof {
                lemma_marked_total_bound(current_board@);
                assert(current_board@ == ab_spec(
                    before,
                    d,
                    i32::MIN as int,
                    i32::MAX as int,
                    true,
                ).0);
                assert(previous == before.marked2.len());
                if previous != current {
                    assert(fuel >= 1);
                    assert(computer_turn_spec(before, d, fuel) == computer_turn_spec(
                        current_board@,
                        d,
                        (fuel - 1) as nat,
                    ));
                    fuel = (fuel - 1) as nat;
                } else {
                    assert(computer_turn_spec(before, d, fuel) == current_board@);
                }
            }
        }
        current_board
    }
}

} // verus!
