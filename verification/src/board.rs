//! The board model: players, lines, squares, and the board itself.
//!
//! A line is a pair of lattice endpoints plus the player who drew it; two
//! lines are equal when their endpoint pairs coincide in either orientation,
//! regardless of owner. A square is four lines, equal to another square when
//! every line of one coincides with some line of the other, so equality is
//! invariant to the order in which the four edges are listed. The board owns
//! the grid points, the immutable catalog of unit squares, the committed
//! lines, the two per-player collections of claimed squares, and a transient
//! candidate line derived from the last pointer position.

use vstd::prelude::*;
use vstd::set_lib::lemma_len_subset;
use crate::geometry::COORD_LIMIT;
use crate::geometry::MathOperations;
use crate::geometry::coord_ok;
use crate::geometry::in_triangle;
use crate::geometry::lemma_mul_bound;
use crate::geometry::shares_axis;
use crate::geometry::sq_dist;

verus! {

/// Largest supported grid dimension, in points per side.
pub const MAX_DIM: i64 = 64;

/// Largest supported pixel offset, window extent and step size.
pub const MAX_OFFSET: i64 = 1_000_000;

/// Who owns a line or a square. `Dummy` marks a catalog edge that no
/// committed line has claimed yet.
#[derive(Debug, PartialEq, Eq, Structural, Clone, Copy)]
pub enum Player {
    Player1,
    Player2,
    Dummy,
}

/// A segment between two lattice points, tagged with the player who drew it.
#[derive(Debug, Clone, Copy)]
pub struct Line {
    pub x1: i64,
    pub y1: i64,
    pub x2: i64,
    pub y2: i64,
    pub marked_by: Player,
}

/// The endpoint pairs of `a` and `b` coincide, in either orientation. The
/// owner tag plays no part: a committed line and a catalog line with
/// different owners can still be the same line.
pub open spec fn line_matches(a: Line, b: Line) -> bool {
    ||| (a.x1 == b.x1 && a.y1 == b.y1 && a.x2 == b.x2 && a.y2 == b.y2)
    ||| (a.x1 == b.x2 && a.y1 == b.y2 && a.x2 == b.x1 && a.y2 == b.y1)
}

impl Line {
    pub fn new(x1: i64, y1: i64, x2: i64, y2: i64, marked_by: Player) -> (r: Line)
        ensures
            r == (Line { x1, y1, x2, y2, marked_by }),
    {
        Line { x1, y1, x2, y2, marked_by }
    }

    pub fn get_x1(&self) -> (r: i64)
        ensures
            r == self.x1,
    {
        self.x1
    }

    pub fn get_y1(&self) -> (r: i64)
        ensures
            r == self.y1,
    {
        self.y1
    }

    pub fn get_x2(&self) -> (r: i64)
        ensures
            r == self.x2,
    {
        self.x2
    }

    pub fn get_y2(&self) -> (r: i64)
        ensures
            r == self.y2,
    {
        self.y2
    }

    pub fn get_marked_by(&self) -> (r: Player)
        ensures
            r == self.marked_by,
    {
        self.marked_by
    }
}

impl PartialEq for Line {
    fn eq(&self, other: &Self) -> bool {
        (self.x1 == other.x1 && self.y1 == other.y1 && self.x2 == other.x2 && self.y2 == other.y2)
            || (self.x1 == other.x2 && self.y1 == other.y2 && self.x2 == other.x1 && self.y2
            == other.y1)
    }
}

impl vstd::std_specs::cmp::PartialEqSpecImpl for Line {
    open spec fn obeys_eq_spec() -> bool {
        true
    }

    open spec fn eq_spec(&self, other: &Line) -> bool {
        line_matches(*self, *other)
    }
}

/// One grid cell: exactly four lines, stored without positional meaning.
#[derive(Debug, Clone, Copy)]
pub struct Square {
    pub line1: Line,
    pub line2: Line,
    pub line3: Line,
    pub line4: Line,
}

/// `l` coincides with one of the four lines of `s`.
pub open spec fn matches_one(l: Line, s: Square) -> bool {
    ||| line_matches(l, s.line1)
    ||| line_matches(l, s.line2)
    ||| line_matches(l, s.line3)
    ||| line_matches(l, s.line4)
}

/// Every line of `a` coincides with some line of `b`, so the comparison is
/// invariant to how the four edges of `a` are listed.
pub open spec fn square_matches(a: Square, b: Square) -> bool {
    &&& matches_one(a.line1, b)
    &&& matches_one(a.line2, b)
    &&& matches_one(a.line3, b)
    &&& matches_one(a.line4, b)
}

/// The least x-coordinate among the eight endpoints of `s`.
pub open spec fn square_min_x(s: Square) -> int {
    min_int(
        min_int(min_int(s.line1.x1 as int, s.line1.x2 as int), min_int(s.line2.x1 as int, s.line2.x2 as int)),
        min_int(min_int(s.line3.x1 as int, s.line3.x2 as int), min_int(s.line4.x1 as int, s.line4.x2 as int)),
    )
}

/// The least y-coordinate among the eight endpoints of `s`.
pub open spec fn square_min_y(s: Square) -> int {
    min_int(
        min_int(min_int(s.line1.y1 as int, s.line1.y2 as int), min_int(s.line2.y1 as int, s.line2.y2 as int)),
        min_int(min_int(s.line3.y1 as int, s.line3.y2 as int), min_int(s.line4.y1 as int, s.line4.y2 as int)),
    )
}

pub open spec fn min_int(a: int, b: int) -> int {
    if a <= b {
        a
    } else {
        b
    }
}

impl Square {
    pub fn new(line1: Line, line2: Line, line3: Line, line4: Line) -> (r: Square)
        ensures
            r == (Square { line1, line2, line3, line4 }),
    {
        Square { line1, line2, line3, line4 }
    }

    pub fn get_line1(&self) -> (r: Line)
        ensures
            r == self.line1,
    {
        self.line1
    }

    /// The smallest corner: the minimum x and minimum y over all four
    /// lines' endpoints (used for label placement).
    pub fn get_smallest(&self) -> (r: (i64, i64))
        ensures
            r.0 == square_min_x(*self),
            r.1 == square_min_y(*self),
    {
        let mut smallest_x: i64 = self.line1.x1;
        let mut smallest_y: i64 = self.line1.y1;
        if self.line1.x2 < smallest_x {
            smallest_x = self.line1.x2;
        }
        if self.line2.x1 < smallest_x {
            smallest_x = self.line2.x1;
        }
        if self.line2.x2 < smallest_x {
            smallest_x = self.line2.x2;
        }
        if self.line3.x1 < smallest_x {
            smallest_x = self.line3.x1;
        }
        if self.line3.x2 < smallest_x {
            smallest_x = self.line3.x2;
        }
        if self.line4.x1 < smallest_x {
            smallest_x = self.line4.x1;
        }
        if self.line4.x2 < smallest_x {
            smallest_x = self.line4.x2;
        }
        if self.line1.y2 < smallest_y {
            smallest_y = self.line1.y2;
        }
        if self.line2.y1 < smallest_y {
            smallest_y = self.line2.y1;
        }
        if self.line2.y2 < smallest_y {
            smallest_y = self.line2.y2;
        }
        if self.line3.y1 < smallest_y {
            smallest_y = self.line3.y1;
        }
        if self.line3.y2 < smallest_y {
            smallest_y = self.line3.y2;
        }
        if self.line4.y1 < smallest_y {
            smallest_y = self.line4.y1;
        }
        if self.line4.y2 < smallest_y {
            smallest_y = self.line4.y2;
        }
        (smallest_x, smallest_y)
    }
}

impl PartialEq for Square {
    fn eq(&self, other: &Self) -> bool {
        let m1 = self.line1 == other.line1 || self.line1 == other.line2 || self.line1
            == other.line3 || self.line1 == other.line4;
        let m2 = self.line2 == other.line1 || self.line2 == other.line2 || self.line2
            == other.line3 || self.line2 == other.line4;
        let m3 = self.line3 == other.line1 || self.line3 == other.line2 || self.line3
            == other.line3 || self.line3 == other.line4;
        let m4 = self.line4 == other.line1 || self.line4 == other.line2 || self.line4
            == other.line3 || self.line4 == other.line4;
        m1 && m2 && m3 && m4
    }
}

impl vstd::std_specs::cmp::PartialEqSpecImpl for Square {
    open spec fn obeys_eq_spec() -> bool {
        true
    }

    open spec fn eq_spec(&self, other: &Square) -> bool {
        square_matches(*self, *other)
    }
}

/// The mathematical content of a `Board`.
#[verifier::ext_equal]
pub ghost struct BoardModel {
    pub width: i64,
    pub height: i64,
    pub start_x: i64,
    pub step_x: i64,
    pub start_y: i64,
    pub step_y: i64,
    pub points: Seq<(i64, i64)>,
    pub lines: Seq<Line>,
    pub temp_line: Line,
    pub squares: Seq<Square>,
    pub marked1: Seq<Square>,
    pub marked2: Seq<Square>,
}

/// The grid point with flattened row-major index `k`: row `k / width`,
/// column `k % width`.
pub open spec fn grid_pt(start_x: int, step_x: int, start_y: int, step_y: int, w: int, k: int) -> (
    i64,
    i64,
) {
    (((start_x + (k % w) * step_x) as i64), ((start_y + (k / w) * step_y) as i64))
}

/// The catalog square with flattened index `k` over a grid of `w` columns of
/// points: the unit cell whose top-left point is at row `k / (w - 1)`,
/// column `k % (w - 1)`, with edges listed top, right, bottom, left, all
/// owned by nobody.
pub open spec fn cell_square(points: Seq<(i64, i64)>, w: int, k: int) -> Square {
    let r = k / (w - 1);
    let c = k % (w - 1);
    let p00 = points[r * w + c];
    let p01 = points[r * w + c + 1];
    let p10 = points[(r + 1) * w + c];
    let p11 = points[(r + 1) * w + c + 1];
    Square {
        line1: Line { x1: p00.0, y1: p00.1, x2: p01.0, y2: p01.1, marked_by: Player::Dummy },
        line2: Line { x1: p01.0, y1: p01.1, x2: p11.0, y2: p11.1, marked_by: Player::Dummy },
        line3: Line { x1: p11.0, y1: p11.1, x2: p10.0, y2: p10.1, marked_by: Player::Dummy },
        line4: Line { x1: p10.0, y1: p10.1, x2: p00.0, y2: p00.1, marked_by: Player::Dummy },
    }
}

/// `s` is one of the catalog squares of `m`.
pub open spec fn in_catalog(m: BoardModel, s: Square) -> bool {
    exists|k: int| 0 <= k < m.squares.len() && m.squares[k] == s
}

/// Well-formed board: a square grid of at least 2x2 points laid out
/// row-major with positive steps, the full catalog of unit cells, and
/// claimed squares that are catalog entries, each claimed at most once and
/// by at most one player. Committed lines and the candidate line are
/// unconstrained.
pub open spec fn wf(m: BoardModel) -> bool {
    &&& 2 <= m.width <= MAX_DIM
    &&& m.height == m.width
    &&& 0 <= m.start_x <= MAX_OFFSET
    &&& 0 <= m.start_y <= MAX_OFFSET
    &&& 1 <= m.step_x <= MAX_OFFSET
    &&& 1 <= m.step_y <= MAX_OFFSET
    &&& m.points.len() == m.width * m.height
    &&& forall|k: int|
        0 <= k < m.points.len() ==> #[trigger] m.points[k] == grid_pt(
            m.start_x as int,
            m.step_x as int,
            m.start_y as int,
            m.step_y as int,
            m.width as int,
            k,
        )
    &&& m.squares.len() == (m.width - 1) * (m.height - 1)
    &&& forall|k: int|
        0 <= k < m.squares.len() ==> #[trigger] m.squares[k] == cell_square(
            m.points,
            m.width as int,
            k,
        )
    &&& forall|i: int| 0 <= i < m.marked1.len() ==> in_catalog(m, #[trigger] m.marked1[i])
    &&& forall|i: int| 0 <= i < m.marked2.len() ==> in_catalog(m, #[trigger] m.marked2[i])
    &&& (m.marked1 + m.marked2).no_duplicates()
}

/// Some committed line of `m` coincides with `l`.
pub open spec fn line_committed(m: BoardModel, l: Line) -> bool {
    exists|i: int| 0 <= i < m.lines.len() && line_matches(#[trigger] m.lines[i], l)
}

/// The board is complete: together the players have claimed as many squares
/// as the catalog holds.
pub open spec fn board_complete(m: BoardModel) -> bool {
    m.marked1.len() + m.marked2.len() == (m.width - 1) * (m.height - 1)
}

/// Together the two players have claimed no more squares than the catalog
/// holds.
pub proof fn lemma_marked_total_bound(m: BoardModel)
    requires
        wf(m),
    ensures
        m.marked1.len() + m.marked2.len() <= m.squares.len(),
{
    let combined = m.marked1 + m.marked2;
    assert(combined.no_duplicates());
    combined.unique_seq_to_set();
    assert forall|s: Square| combined.to_set().contains(s) implies m.squares.to_set().contains(
        s,
    ) by {
        let i = choose|i: int| 0 <= i < combined.len() && combined[i] == s;
        if i < m.marked1.len() {
            assert(combined[i] == m.marked1[i]);
            assert(in_catalog(m, m.marked1[i]));
        } else {
            assert(combined[i] == m.marked2[i - m.marked1.len()]);
            assert(in_catalog(m, m.marked2[i - m.marked1.len()]));
        }
        let k = choose|k: int| 0 <= k < m.squares.len() && m.squares[k] == s;
        assert(m.squares.contains(s));
    }
    lemma_len_subset(combined.to_set(), m.squares.to_set());
    m.squares.lemma_cardinality_of_set();
}

/// All four edges of catalog square `k` have been committed.
pub open spec fn square_complete(m: BoardModel, k: int) -> bool {
    let s = m.squares[k];
    &&& line_committed(m, s.line1)
    &&& line_committed(m, s.line2)
    &&& line_committed(m, s.line3)
    &&& line_committed(m, s.line4)
}

/// Catalog square `k` already sits in one of the two claimed collections.
pub open spec fn square_claimed(m: BoardModel, k: int) -> bool {
    ||| (exists|i: int| 0 <= i < m.marked1.len() && m.marked1[i] == m.squares[k])
    ||| (exists|i: int| 0 <= i < m.marked2.len() && m.marked2[i] == m.squares[k])
}

/// A rescan of `m` claims catalog square `k`: all four of its edges are
/// committed and neither player holds it yet.
pub open spec fn claimable(m: BoardModel, k: int) -> bool {
    square_complete(m, k) && !square_claimed(m, k)
}

/// The squares a rescan of `m` claims among the first `n` catalog entries,
/// in catalog order.
pub open spec fn claims_upto(m: BoardModel, n: int) -> Seq<Square>
    decreases n,
{
    if n <= 0 {
        Seq::empty()
    } else if claimable(m, n - 1) {
        claims_upto(m, n - 1).push(m.squares[n - 1])
    } else {
        claims_upto(m, n - 1)
    }
}

/// Every square a rescan of `m` claims, in catalog order.
pub open spec fn new_claims(m: BoardModel) -> Seq<Square> {
    claims_upto(m, m.squares.len() as int)
}

/// Re-deriving claimed squares from the committed-line history: every
/// complete catalog square claimed by neither player is appended to
/// `player`'s collection. Everything else is untouched; a rescan for nobody
/// changes nothing.
pub open spec fn rescan(m: BoardModel, player: Player) -> BoardModel {
    if player == Player::Player1 {
        BoardModel { marked1: m.marked1 + new_claims(m), ..m }
    } else if player == Player::Player2 {
        BoardModel { marked2: m.marked2 + new_claims(m), ..m }
    } else {
        m
    }
}

/// `m` with one more committed line: what `add_line` does.
pub open spec fn commit(m: BoardModel, l: Line) -> BoardModel {
    BoardModel { lines: m.lines.push(l), ..m }
}

/// How many of the first `n` catalog squares a rescan of `m` claims.
pub open spec fn claimable_count(m: BoardModel, n: int) -> int
    decreases n,
{
    if n <= 0 {
        0
    } else {
        claimable_count(m, n - 1) + if claimable(m, n - 1) {
            1int
        } else {
            0int
        }
    }
}

/// A rescan appends exactly one square per newly completed, unclaimed
/// catalog entry.
pub proof fn lemma_claims_len(m: BoardModel, n: int)
    ensures
        claims_upto(m, n).len() == claimable_count(m, n),
    decreases n,
{
    if n > 0 {
        lemma_claims_len(m, n - 1);
    }
}

/// Committing a line and rescanning for a player raises exactly that
/// player's claimed count, by exactly the number of catalog squares that
/// the new committed history completes and that neither player held
/// before. A line whose commit completes exactly one square raises the
/// count by one; one that completes two squares at once (a shared edge)
/// raises it by two.
pub proof fn lemma_commit_rescan_count(m: BoardModel, l: Line, player: Player)
    ensures
        player == Player::Player1 ==> rescan(commit(m, l), player).marked1.len() == m.marked1.len()
            + claimable_count(commit(m, l), commit(m, l).squares.len() as int) && rescan(
            commit(m, l),
            player,
        ).marked2 == m.marked2,
        player == Player::Player2 ==> rescan(commit(m, l), player).marked2.len() == m.marked2.len()
            + claimable_count(commit(m, l), commit(m, l).squares.len() as int) && rescan(
            commit(m, l),
            player,
        ).marked1 == m.marked1,
{
    lemma_claims_len(commit(m, l), commit(m, l).squares.len() as int);
}

/// Line equality goes by the endpoint pairs alone, in either orientation:
/// replacing either owner tag changes nothing, and the comparison is
/// symmetric.
pub proof fn lemma_line_eq_owner_blind(a: Line, b: Line, pa: Player, pb: Player)
    ensures
        line_matches(Line { marked_by: pa, ..a }, Line { marked_by: pb, ..b }) == line_matches(
            a,
            b,
        ),
        line_matches(a, b) == line_matches(b, a),
{
}

/// `l` is one of the four lines listed for `b`, so it matches one of them.
proof fn lemma_line_of_square(l: Line, b: Square)
    requires
        seq![b.line1, b.line2, b.line3, b.line4].contains(l),
    ensures
        matches_one(l, b),
{
    let sb = seq![b.line1, b.line2, b.line3, b.line4];
    let j = choose|j: int| 0 <= j < sb.len() && sb[j] == l;
    assert(sb[0] == b.line1 && sb[1] == b.line2 && sb[2] == b.line3 && sb[3] == b.line4);
}

/// A square equals any listing of the same four lines in another order:
/// equality is invariant to rotation and reflection of the edge list.
pub proof fn lemma_square_eq_permutation(a: Square, b: Square)
    requires
        seq![a.line1, a.line2, a.line3, a.line4].to_multiset() == seq![
            b.line1,
            b.line2,
            b.line3,
            b.line4,
        ].to_multiset(),
    ensures
        square_matches(a, b),
        square_matches(b, a),
{
    broadcast use vstd::seq_lib::group_to_multiset_ensures;

    let sa = seq![a.line1, a.line2, a.line3, a.line4];
    let sb = seq![b.line1, b.line2, b.line3, b.line4];
    assert(sa[0] == a.line1 && sa[1] == a.line2 && sa[2] == a.line3 && sa[3] == a.line4);
    assert(sb[0] == b.line1 && sb[1] == b.line2 && sb[2] == b.line3 && sb[3] == b.line4);
    assert(sa.contains(a.line1) && sa.contains(a.line2) && sa.contains(a.line3) && sa.contains(
        a.line4,
    ));
    assert(sb.contains(b.line1) && sb.contains(b.line2) && sb.contains(b.line3) && sb.contains(
        b.line4,
    ));
    assert(sa.to_multiset().count(a.line1) > 0 && sa.to_multiset().count(a.line2) > 0
        && sa.to_multiset().count(a.line3) > 0 && sa.to_multiset().count(a.line4) > 0);
    assert(sb.to_multiset().count(b.line1) > 0 && sb.to_multiset().count(b.line2) > 0
        && sb.to_multiset().count(b.line3) > 0 && sb.to_multiset().count(b.line4) > 0);
    assert(sb.to_multiset().count(a.line1) > 0 && sb.to_multiset().count(a.line2) > 0
        && sb.to_multiset().count(a.line3) > 0 && sb.to_multiset().count(a.line4) > 0);
    assert(sa.to_multiset().count(b.line1) > 0 && sa.to_multiset().count(b.line2) > 0
        && sa.to_multiset().count(b.line3) > 0 && sa.to_multiset().count(b.line4) > 0);
    assert(sb.contains(a.line1) && sb.contains(a.line2) && sb.contains(a.line3) && sb.contains(
        a.line4,
    ));
    assert(sa.contains(b.line1) && sa.contains(b.line2) && sa.contains(b.line3) && sa.contains(
        b.line4,
    ));
    lemma_line_of_square(a.line1, b);
    lemma_line_of_square(a.line2, b);
    lemma_line_of_square(a.line3, b);
    lemma_line_of_square(a.line4, b);
    lemma_line_of_square(b.line1, a);
    lemma_line_of_square(b.line2, a);
    lemma_line_of_square(b.line3, a);
    lemma_line_of_square(b.line4, a);
}

/// How many committed lines of `lines` coincide with `l`.
pub open spec fn line_count(lines: Seq<Line>, l: Line) -> int
    decreases lines.len(),
{
    if lines.len() == 0 {
        0
    } else {
        line_count(lines.drop_last(), l) + if line_matches(lines.last(), l) {
            1int
        } else {
            0int
        }
    }
}

/// The count of matching lines is zero exactly when no committed line
/// matches.
pub proof fn lemma_line_count_zero(lines: Seq<Line>, l: Line)
    ensures
        line_count(lines, l) >= 0,
        (line_count(lines, l) == 0) <==> (forall|i: int|
            0 <= i < lines.len() ==> !line_matches(#[trigger] lines[i], l)),
    decreases lines.len(),
{
    if lines.len() > 0 {
        lemma_line_count_zero(lines.drop_last(), l);
        assert(lines.last() == lines[lines.len() - 1]);
        assert(forall|i: int| 0 <= i < lines.len() - 1 ==> lines.drop_last()[i] == lines[i]);
    }
}

/// Committing a line appends exactly one matching entry to the committed
/// sequence, and a rescan never adds or removes committed lines: a line
/// that was absent before its commit is afterwards found exactly once, no
/// matter how many rescans run.
pub proof fn lemma_commit_found_once(m: BoardModel, l: Line, player: Player)
    ensures
        line_committed(commit(m, l), l),
        rescan(commit(m, l), player).lines == commit(m, l).lines,
        line_count(commit(m, l).lines, l) == line_count(m.lines, l) + 1,
        !line_committed(m, l) ==> line_count(rescan(commit(m, l), player).lines, l) == 1,
{
    let pushed = commit(m, l).lines;
    assert(pushed.drop_last() =~= m.lines);
    assert(pushed.last() == l);
    assert(line_matches(l, l));
    assert(pushed[m.lines.len() as int] == l);
    assert(line_committed(commit(m, l), l));
    if !line_committed(m, l) {
        lemma_line_count_zero(m.lines, l);
        assert forall|i: int| 0 <= i < m.lines.len() implies !line_matches(
            #[trigger] m.lines[i],
            l,
        ) by {
            if line_matches(m.lines[i], l) {
                assert(line_committed(m, l));
            }
        }
        assert(line_count(m.lines, l) == 0);
    }
}

/// On a well-formed board the catalog entries are pairwise distinct: two
/// different cells differ in their top-left corner, and the grid steps are
/// positive.
pub proof fn lemma_catalog_distinct(m: BoardModel)
    requires
        wf(m),
    ensures
        forall|k1: int, k2: int|
            0 <= k1 < m.squares.len() && 0 <= k2 < m.squares.len() && k1 != k2 ==> m.squares[k1]
                != m.squares[k2],
{
    let w = m.width as int;
    let sx = m.step_x as int;
    let sy = m.step_y as int;
    assert forall|k1: int, k2: int|
        0 <= k1 < m.squares.len() && 0 <= k2 < m.squares.len() && k1 != k2 implies m.squares[k1]
        != m.squares[k2] by {
        let r1 = k1 / (w - 1);
        let c1 = k1 % (w - 1);
        let r2 = k2 / (w - 1);
        let c2 = k2 % (w - 1);
        vstd::arithmetic::div_mod::lemma_fundamental_div_mod(k1, w - 1);
        vstd::arithmetic::div_mod::lemma_fundamental_div_mod(k2, w - 1);
        vstd::arithmetic::div_mod::lemma_div_pos_is_pos(k1, w - 1);
        vstd::arithmetic::div_mod::lemma_div_pos_is_pos(k2, w - 1);
        vstd::arithmetic::div_mod::lemma_multiply_divide_lt(k1, w - 1, w - 1);
        vstd::arithmetic::div_mod::lemma_multiply_divide_lt(k2, w - 1, w - 1);
        assert(m.squares.len() == (w - 1) * (w - 1));
        assert(k1 < (w - 1) * (w - 1));
        assert(r1 < w - 1 && r2 < w - 1);
        vstd::arithmetic::div_mod::lemma_fundamental_div_mod_converse(r1 * w + c1, w, r1, c1);
        vstd::arithmetic::div_mod::lemma_fundamental_div_mod_converse(r2 * w + c2, w, r2, c2);
        assert(0 <= r1 * w + c1 < m.points.len() && 0 <= r2 * w + c2 < m.points.len())
            by (nonlinear_arith)
            requires
                0 <= r1 < w - 1,
                0 <= c1 < w - 1,
                0 <= r2 < w - 1,
                0 <= c2 < w - 1,
                2 <= w,
                m.points.len() == w * w,
        ;
        let p1 = m.points[r1 * w + c1];
        let p2 = m.points[r2 * w + c2];
        assert(p1 == grid_pt(m.start_x as int, sx, m.start_y as int, sy, w, r1 * w + c1));
        assert(p2 == grid_pt(m.start_x as int, sx, m.start_y as int, sy, w, r2 * w + c2));
        lemma_mul_bound(c1, sx, MAX_DIM as int, MAX_OFFSET as int);
        lemma_mul_bound(c2, sx, MAX_DIM as int, MAX_OFFSET as int);
        lemma_mul_bound(r1, sy, MAX_DIM as int, MAX_OFFSET as int);
        lemma_mul_bound(r2, sy, MAX_DIM as int, MAX_OFFSET as int);
        assert(m.squares[k1].line1.x1 == p1.0 && m.squares[k1].line1.y1 == p1.1);
        assert(m.squares[k2].line1.x1 == p2.0 && m.squares[k2].line1.y1 == p2.1);
        if r1 != r2 {
            assert(r1 * sy != r2 * sy) by (nonlinear_arith)
                requires
                    r1 != r2,
                    1 <= sy,
            ;
            assert(p1.1 != p2.1);
        } else {
            assert(c1 != c2);
            assert(c1 * sx != c2 * sx) by (nonlinear_arith)
                requires
                    c1 != c2,
                    1 <= sx,
            ;
            assert(p1.0 != p2.0);
        }
    }
}

/// `s` is one of the first `n` catalog squares and a rescan of `m` would
/// claim it.
pub open spec fn from_claimable(m: BoardModel, n: int, s: Square) -> bool {
    exists|k: int| 0 <= k < n && s == #[trigger] m.squares[k] && claimable(m, k)
}

/// What a rescan appends: each entry is a distinct, previously unclaimed,
/// complete catalog square.
pub proof fn lemma_claims_upto_props(m: BoardModel, n: int)
    requires
        wf(m),
        0 <= n <= m.squares.len(),
    ensures
        claims_upto(m, n).len() <= n,
        forall|i: int|
            0 <= i < claims_upto(m, n).len() ==> from_claimable(
                m,
                n,
                #[trigger] claims_upto(m, n)[i],
            ),
        claims_upto(m, n).no_duplicates(),
    decreases n,
{
    if n > 0 {
        lemma_claims_upto_props(m, n - 1);
        lemma_catalog_distinct(m);
        assert forall|i: int| 0 <= i < claims_upto(m, n).len() implies from_claimable(
            m,
            n,
            #[trigger] claims_upto(m, n)[i],
        ) by {
            if i < claims_upto(m, n - 1).len() {
                assert(from_claimable(m, n - 1, claims_upto(m, n - 1)[i]));
                let k2 = choose|k2: int|
                    0 <= k2 < n - 1 && claims_upto(m, n - 1)[i] == m.squares[k2] && claimable(
                        m,
                        k2,
                    );
                assert(claims_upto(m, n)[i] == claims_upto(m, n - 1)[i]);
                assert(claims_upto(m, n)[i] == m.squares[k2] && claimable(m, k2));
            } else {
                assert(claimable(m, n - 1));
                assert(claims_upto(m, n)[i] == m.squares[n - 1]);
            }
        }
        if claimable(m, n - 1) {
            assert forall|i: int| 0 <= i < claims_upto(m, n - 1).len() implies #[trigger] claims_upto(
                m,
                n - 1,
            )[i] != m.squares[n - 1] by {
                assert(from_claimable(m, n - 1, claims_upto(m, n - 1)[i]));
                let k2 = choose|k2: int|
                    0 <= k2 < n - 1 && claims_upto(m, n - 1)[i] == m.squares[k2] && claimable(
                        m,
                        k2,
                    );
                assert(m.squares[k2] != m.squares[n - 1]);
            }
            assert(claims_upto(m, n).no_duplicates());
        } else {
            assert(claims_upto(m, n) == claims_upto(m, n - 1));
        }
    }
}

/// A rescan preserves well-formedness: the grid and catalog are untouched,
/// the appended squares are catalog entries, and none of them was claimed
/// before, so no square ends up claimed twice.
pub proof fn lemma_rescan_preserves_wf(m: BoardModel, player: Player)
    requires
        wf(m),
    ensures
        wf(rescan(m, player)),
{
    if player == Player::Player1 || player == Player::Player2 {
        let fresh = new_claims(m);
        lemma_claims_upto_props(m, m.squares.len() as int);
        let m2 = rescan(m, player);
        assert forall|i: int| 0 <= i < fresh.len() implies in_catalog(m2, #[trigger] fresh[i]) by {
            assert(from_claimable(m, m.squares.len() as int, fresh[i]));
            let k = choose|k: int|
                0 <= k < m.squares.len() && fresh[i] == m.squares[k] && claimable(m, k);
            assert(0 <= k < m2.squares.len() && m2.squares[k] == fresh[i]);
        }
        assert forall|i: int| 0 <= i < m.marked1.len() implies in_catalog(
            m2,
            #[trigger] m.marked1[i],
        ) by {
            let k = choose|k: int| 0 <= k < m.squares.len() && m.squares[k] == m.marked1[i];
            assert(in_catalog(m, m.marked1[i]));
            let k2 = choose|k2: int| 0 <= k2 < m.squares.len() && m.squares[k2] == m.marked1[i];
            assert(m2.squares[k2] == m.marked1[i]);
        }
        assert forall|i: int| 0 <= i < m.marked2.len() implies in_catalog(
            m2,
            #[trigger] m.marked2[i],
        ) by {
            let k = choose|k: int| 0 <= k < m.squares.len() && m.squares[k] == m.marked2[i];
            assert(in_catalog(m, m.marked2[i]));
            let k2 = choose|k2: int| 0 <= k2 < m.squares.len() && m.squares[k2] == m.marked2[i];
            assert(m2.squares[k2] == m.marked2[i]);
        }
        let old_all = m.marked1 + m.marked2;
        let new_all = m2.marked1 + m2.marked2;
        assert(old_all.no_duplicates());
        assert forall|x: int| 0 <= x < fresh.len() implies !old_all.contains(#[trigger] fresh[x])
            by {
            assert(from_claimable(m, m.squares.len() as int, fresh[x]));
            let k = choose|k: int|
                0 <= k < m.squares.len() && fresh[x] == m.squares[k] && claimable(m, k);
            if old_all.contains(fresh[x]) {
                let i = choose|i: int| 0 <= i < old_all.len() && old_all[i] == fresh[x];
                if i < m.marked1.len() {
                    assert(m.marked1[i] == m.squares[k]);
                } else {
                    assert(m.marked2[i - m.marked1.len()] == m.squares[k]);
                }
                assert(square_claimed(m, k));
            }
        }
        assert forall|i: int, j: int| 0 <= i < j < new_all.len() implies new_all[i] != new_all[j]
            by {
            lemma_catalog_distinct(m);
            let n1 = m.marked1.len() as int;
            let n2 = m.marked2.len() as int;
            let nf = fresh.len() as int;
            if player == Player::Player1 {
                // layout: marked1, fresh, marked2
                assert(forall|p: int|
                    0 <= p < n1 ==> #[trigger] new_all[p] == old_all[p]);
                assert(forall|p: int|
                    n1 <= p < n1 + nf ==> #[trigger] new_all[p] == fresh[p - n1]);
                assert(forall|p: int|
                    n1 + nf <= p < new_all.len() ==> #[trigger] new_all[p] == old_all[p - nf]);
                if n1 <= i < n1 + nf && n1 <= j < n1 + nf {
                    assert(fresh[i - n1] != fresh[j - n1]);
                } else if n1 <= i < n1 + nf {
                    assert(!old_all.contains(fresh[i - n1]));
                    assert(old_all[j - nf] != fresh[i - n1]);
                } else if n1 <= j < n1 + nf {
                    assert(!old_all.contains(fresh[j - n1]));
                    assert(if i < n1 {
                        old_all[i]
                    } else {
                        old_all[i - nf]
                    } != fresh[j - n1]);
                } else {
                    let oi = if i < n1 {
                        i
                    } else {
                        i - nf
                    };
                    let oj = if j < n1 {
                        j
                    } else {
                        j - nf
                    };
                    assert(0 <= oi < oj < old_all.len());
                    assert(old_all[oi] != old_all[oj]);
                }
            } else {
                // layout: marked1, marked2, fresh
                if i < n1 + n2 && j < n1 + n2 {
                    assert(new_all[i] == old_all[i] && new_all[j] == old_all[j]);
                } else if i < n1 + n2 {
                    assert(new_all[j] == fresh[j - n1 - n2]);
                    assert(new_all[i] == old_all[i]);
                    assert(!old_all.contains(fresh[j - n1 - n2]));
                } else {
                    assert(new_all[i] == fresh[i - n1 - n2]);
                    assert(new_all[j] == fresh[j - n1 - n2]);
                }
            }
        }
        assert(new_all.no_duplicates());
    }
}

/// Whether the pointer-resolution search may still pick `p`: it is not
/// already chosen, and it does not put two already-chosen points on the same
/// row or column as itself.
pub open spec fn point_eligible(p: (i64, i64), chosen: Seq<(i64, i64)>) -> bool {
    !chosen.contains(p) && !shares_axis(chosen, p.0 as int, p.1 as int)
}

/// The eligible point nearest to `(x, y)` among the first `n` grid points;
/// an earlier point wins a distance tie.
pub open spec fn best_point_upto(
    points: Seq<(i64, i64)>,
    chosen: Seq<(i64, i64)>,
    x: int,
    y: int,
    n: int,
) -> Option<(i64, i64)>
    decreases n,
{
    if n <= 0 {
        None
    } else {
        let prev = best_point_upto(points, chosen, x, y, n - 1);
        let p = points[n - 1];
        let better = match prev {
            Option::None => true,
            Option::Some(q) => sq_dist(x, y, p.0 as int, p.1 as int) < sq_dist(
                x,
                y,
                q.0 as int,
                q.1 as int,
            ),
        };
        if point_eligible(p, chosen) && better {
            Some(p)
        } else {
            prev
        }
    }
}

/// Repeatedly picks the nearest eligible grid point, `rounds` times,
/// accumulating onto `chosen`; `None` when some round finds no eligible
/// point.
pub open spec fn select_upto(
    points: Seq<(i64, i64)>,
    chosen: Seq<(i64, i64)>,
    x: int,
    y: int,
    rounds: int,
) -> Option<Seq<(i64, i64)>>
    decreases rounds,
{
    if rounds <= 0 {
        Some(chosen)
    } else {
        match best_point_upto(points, chosen, x, y, points.len() as int) {
            Option::None => None,
            Option::Some(p) => select_upto(points, chosen.push(p), x, y, rounds - 1),
        }
    }
}

/// The midpoint coordinate of the last cyclically adjacent pair among
/// `sel[0..=i]` whose first coordinates differ: the smaller coordinate plus
/// half the gap (zero when no pair differs).
pub open spec fn mid_x_upto(sel: Seq<(i64, i64)>, i: int) -> int
    decreases i,
{
    if i <= 0 {
        0
    } else {
        let a = sel[i - 1].0 as int;
        let b = sel[i].0 as int;
        if a != b {
            min_int(a, b) + (if a >= b {
                a - b
            } else {
                b - a
            }) / 2
        } else {
            mid_x_upto(sel, i - 1)
        }
    }
}

/// As `mid_x_upto`, over the second coordinates.
pub open spec fn mid_y_upto(sel: Seq<(i64, i64)>, i: int) -> int
    decreases i,
{
    if i <= 0 {
        0
    } else {
        let a = sel[i - 1].1 as int;
        let b = sel[i].1 as int;
        if a != b {
            min_int(a, b) + (if a >= b {
                a - b
            } else {
                b - a
            }) / 2
        } else {
            mid_y_upto(sel, i - 1)
        }
    }
}

/// The candidate line for the four selected points: the diagonal pairing
/// `sel[0]`–`sel[3]` if the pointer falls in its triangle with the
/// approximate center, else the first adjacent pairing whose triangle
/// contains the pointer; the previous candidate when none matches.
pub open spec fn pick_candidate(
    sel: Seq<(i64, i64)>,
    mx: int,
    my: int,
    x: int,
    y: int,
    next: Player,
    temp: Line,
) -> Line {
    if in_triangle(
        sel[0].0 as int,
        sel[0].1 as int,
        sel[3].0 as int,
        sel[3].1 as int,
        mx,
        my,
        x,
        y,
    ) {
        Line { x1: sel[0].0, y1: sel[0].1, x2: sel[3].0, y2: sel[3].1, marked_by: next }
    } else if in_triangle(
        sel[0].0 as int,
        sel[0].1 as int,
        sel[1].0 as int,
        sel[1].1 as int,
        mx,
        my,
        x,
        y,
    ) {
        Line { x1: sel[0].0, y1: sel[0].1, x2: sel[1].0, y2: sel[1].1, marked_by: next }
    } else if in_triangle(
        sel[1].0 as int,
        sel[1].1 as int,
        sel[2].0 as int,
        sel[2].1 as int,
        mx,
        my,
        x,
        y,
    ) {
        Line { x1: sel[1].0, y1: sel[1].1, x2: sel[2].0, y2: sel[2].1, marked_by: next }
    } else if in_triangle(
        sel[2].0 as int,
        sel[2].1 as int,
        sel[3].0 as int,
        sel[3].1 as int,
        mx,
        my,
        x,
        y,
    ) {
        Line { x1: sel[2].0, y1: sel[2].1, x2: sel[3].0, y2: sel[3].1, marked_by: next }
    } else {
        temp
    }
}

/// What resolving the pointer position `(x, y)` for `next` does to the
/// board: selects the four nearest eligible grid points, forms the
/// approximate center, and stages the matching edge as the candidate line.
/// The board is unchanged when fewer than four points can be selected or no
/// triangle matches.
pub open spec fn update_line_spec(m: BoardModel, next: Player, x: int, y: int) -> BoardModel {
    match select_upto(m.points, Seq::empty(), x, y, 4) {
        Option::None => m,
        Option::Some(sel) => BoardModel {
            temp_line: pick_candidate(sel, mid_x_upto(sel, 3), mid_y_upto(sel, 3), x, y, next, m.temp_line),
            ..m
        },
    }
}

/// Every grid point of a well-formed board lies within the coordinate
/// bounds the geometry accepts.
pub proof fn lemma_points_bounded(m: BoardModel)
    requires
        wf(m),
    ensures
        forall|k: int|
            0 <= k < m.points.len() ==> 0 <= (#[trigger] m.points[k]).0 <= COORD_LIMIT && 0
                <= m.points[k].1 <= COORD_LIMIT,
{
    let w = m.width as int;
    assert forall|k: int|
        0 <= k < m.points.len() implies 0 <= (#[trigger] m.points[k]).0 <= COORD_LIMIT && 0
        <= m.points[k].1 <= COORD_LIMIT by {
        vstd::arithmetic::div_mod::lemma_mod_bound(k, w);
        vstd::arithmetic::div_mod::lemma_div_pos_is_pos(k, w);
        assert(k < w * (m.height as int)) by (nonlinear_arith)
            requires
                k < m.points.len(),
                m.points.len() == (m.width as int) * (m.height as int),
                w == m.width as int,
        ;
        vstd::arithmetic::div_mod::lemma_multiply_divide_lt(k, w, m.height as int);
        lemma_mul_bound(k % w, m.step_x as int, MAX_DIM as int, MAX_OFFSET as int);
        lemma_mul_bound(k / w, m.step_y as int, MAX_DIM as int, MAX_OFFSET as int);
        assert(0 <= k % w * (m.step_x as int)) by (nonlinear_arith)
            requires
                0 <= k % w,
                0 <= m.step_x,
        ;
        assert(0 <= k / w * (m.step_y as int)) by (nonlinear_arith)
            requires
                0 <= k / w,
                0 <= m.step_y,
        ;
        assert(m.points[k] == grid_pt(
            m.start_x as int,
            m.step_x as int,
            m.start_y as int,
            m.step_y as int,
            w,
            k,
        ));
    }
}

/// The dots-and-boxes board.
pub struct Board {
    pub width: i64,
    pub height: i64,
    pub points: Vec<(i64, i64)>,
    pub lines: Vec<Line>,
    pub temp_line: Line,
    pub start_x: i64,
    pub step_x: i64,
    pub start_y: i64,
    pub step_y: i64,
    pub squares: Vec<Square>,
    pub marked_squares_by_player_1: Vec<Square>,
    pub marked_squares_by_player_2: Vec<Square>,
}

impl View for Board {
    type V = BoardModel;

    open spec fn view(&self) -> BoardModel {
        BoardModel {
            width: self.width,
            height: self.height,
            start_x: self.start_x,
            step_x: self.step_x,
            start_y: self.start_y,
            step_y: self.step_y,
            points: self.points@,
            lines: self.lines@,
            temp_line: self.temp_line,
            squares: self.squares@,
            marked1: self.marked_squares_by_player_1@,
            marked2: self.marked_squares_by_player_2@,
        }
    }
}

impl Board {
    /// Builds the grid and the catalog of unit squares. The step on each
    /// axis is the window extent minus twice the border offset, divided by
    /// the number of gaps between points. Only square grids are supported:
    /// the catalog indexing is tied to `width == height`.
    pub fn new(
        width: i64,
        height: i64,
        window_width: i64,
        window_height: i64,
        start_x: i64,
        start_y: i64,
    ) -> (b: Board)
        requires
            2 <= width <= MAX_DIM,
            height == width,
            0 <= start_x,
            0 <= start_y,
            window_width <= MAX_OFFSET,
            window_height <= MAX_OFFSET,
            2 * start_x + (width - 1) <= window_width,
            2 * start_y + (height - 1) <= window_height,
        ensures
            wf(b@),
            b@.width == width,
            b@.height == height,
            b@.start_x == start_x,
            b@.start_y == start_y,
            b@.step_x == (window_width - 2 * start_x) as int / (width - 1) as int,
            b@.step_y == (window_height - 2 * start_y) as int / (height - 1) as int,
            b@.points.len() == width * height,
            b@.squares.len() == (width - 1) * (height - 1),
            b@.lines.len() == 0,
            b@.marked1.len() == 0,
            b@.marked2.len() == 0,
            b@.temp_line == (Line { x1: 0, y1: 0, x2: 0, y2: 0, marked_by: Player::Dummy }),
    {
        let step_x: i64 = (window_width - 2 * start_x) / (width - 1);
        let step_y: i64 = (window_height - 2 * start_y) / (height - 1);
        proof {
            vstd::arithmetic::div_mod::lemma_div_non_zero(
                (window_width - 2 * start_x) as int,
                (width - 1) as int,
            );
            vstd::arithmetic::div_mod::lemma_div_nonincreasing(
                (window_width - 2 * start_x) as int,
                (width - 1) as int,
            );
            vstd::arithmetic::div_mod::lemma_div_non_zero(
                (window_height - 2 * start_y) as int,
                (height - 1) as int,
            );
            vstd::arithmetic::div_mod::lemma_div_nonincreasing(
                (window_height - 2 * start_y) as int,
                (height - 1) as int,
            );
        }
        let w = width as usize;
        let h = height as usize;
        let mut points: Vec<(i64, i64)> = Vec::new();
        proof {
            assert(points@.len() == 0 * (w as int));
        }
        for i in 0..h
            invariant
                w == width as int,
                h == height as int,
                2 <= width <= MAX_DIM,
                height == width,
                0 <= start_x <= MAX_OFFSET,
                0 <= start_y <= MAX_OFFSET,
                1 <= step_x <= MAX_OFFSET,
                1 <= step_y <= MAX_OFFSET,
                points@.len() == i * w,
                forall|k: int|
                    0 <= k < points@.len() ==> #[trigger] points@[k] == grid_pt(
                        start_x as int,
                        step_x as int,
                        start_y as int,
                        step_y as int,
                        width as int,
                        k,
                    ),
        {
            for j in 0..w
                invariant
                    w == width as int,
                    h == height as int,
                    2 <= width <= MAX_DIM,
                    height == width,
                    0 <= start_x <= MAX_OFFSET,
                    0 <= start_y <= MAX_OFFSET,
                    1 <= step_x <= MAX_OFFSET,
                    1 <= step_y <= MAX_OFFSET,
                    i < h,
                    points@.len() == i * w + j,
                    forall|k: int|
                        0 <= k < points@.len() ==> #[trigger] points@[k] == grid_pt(
                            start_x as int,
                            step_x as int,
                            start_y as int,
                            step_y as int,
                            width as int,
                            k,
                        ),
            {
                proof {
                    lemma_mul_bound(j as int, step_x as int, MAX_DIM as int, MAX_OFFSET as int);
                    lemma_mul_bound(i as int, step_y as int, MAX_DIM as int, MAX_OFFSET as int);
                    vstd::arithmetic::div_mod::lemma_fundamental_div_mod_converse(
                        (i * w + j) as int,
                        width as int,
                        i as int,
                        j as int,
                    );
                }
                points.push((start_x + (j as i64) * step_x, start_y + (i as i64) * step_y));
            }
            proof {
                assert((i + 1) * w == i * w + w) by (nonlinear_arith);
            }
        }
        proof {
            assert(points@.len() == width * height) by (nonlinear_arith)
                requires
                    points@.len() == (height as int) * (width as int),
            ;
        }
        let mut squares: Vec<Square> = Vec::new();
        proof {
            assert(squares@.len() == 0 * ((w - 1) as int));
        }
        for i in 0..(h - 1)
            invariant
                w == width as int,
                h == height as int,
                2 <= width <= MAX_DIM,
                height == width,
                points@.len() == width * height,
                forall|k: int|
                    0 <= k < points@.len() ==> #[trigger] points@[k] == grid_pt(
                        start_x as int,
                        step_x as int,
                        start_y as int,
                        step_y as int,
                        width as int,
                        k,
                    ),
                squares@.len() == i * (w - 1),
                forall|k: int|
                    0 <= k < squares@.len() ==> #[trigger] squares@[k] == cell_square(
                        points@,
                        width as int,
                        k,
                    ),
        {
            for j in 0..(w - 1)
                invariant
                    w == width as int,
                    h == height as int,
                    2 <= width <= MAX_DIM,
                    height == width,
                    points@.len() == width * height,
                    forall|k: int|
                        0 <= k < points@.len() ==> #[trigger] points@[k] == grid_pt(
                            start_x as int,
                            step_x as int,
                            start_y as int,
                            step_y as int,
                            width as int,
                            k,
                        ),
                    i < h - 1,
                    squares@.len() == i * (w - 1) + j,
                    forall|k: int|
                        0 <= k < squares@.len() ==> #[trigger] squares@[k] == cell_square(
                            points@,
                            width as int,
                            k,
                        ),
            {
                proof {
                    assert(i * w + j < (i + 1) * w && (i + 1) * w + j + 1 < h * w && h * w <= 4096)
                        by (nonlinear_arith)
                        requires
                            i + 2 <= h,
                            j + 2 <= w,
                            2 <= w,
                            h <= 64,
                            w <= 64,
                    ;
                    assert(h * w == (width as int) * (height as int)) by (nonlinear_arith)
                        requires
                            w == width as int,
                            h == height as int,
                    ;
                    vstd::arithmetic::div_mod::lemma_fundamental_div_mod_converse(
                        (i * (w - 1) + j) as int,
                        (width - 1) as int,
                        i as int,
                        j as int,
                    );
                }
                let p00 = points[i * w + j];
                let p01 = points[i * w + j + 1];
                let p10 = points[(i + 1) * w + j];
                let p11 = points[(i + 1) * w + j + 1];
                let line1 = Line::new(p00.0, p00.1, p01.0, p01.1, Player::Dummy);
                let line2 = Line::new(p01.0, p01.1, p11.0, p11.1, Player::Dummy);
                let line3 = Line::new(p11.0, p11.1, p10.0, p10.1, Player::Dummy);
                let line4 = Line::new(p10.0, p10.1, p00.0, p00.1, Player::Dummy);
                squares.push(Square::new(line1, line2, line3, line4));
            }
            proof {
                assert((i + 1) * (w - 1) == i * (w - 1) + (w - 1)) by (nonlinear_arith);
            }
        }
        proof {
            assert(squares@.len() == (width - 1) * (height - 1)) by (nonlinear_arith)
                requires
                    squares@.len() == ((height as int) - 1) * ((width as int) - 1),
            ;
        }
        let b = Board {
            width,
            height,
            points,
            lines: Vec::new(),
            temp_line: Line::new(0, 0, 0, 0, Player::Dummy),
            start_x,
            step_x,
            start_y,
            step_y,
            squares,
            marked_squares_by_player_1: Vec::new(),
            marked_squares_by_player_2: Vec::new(),
        };
        proof {
            assert((b@.marked1 + b@.marked2).no_duplicates());
        }
        b
    }

    pub fn get_marked_by_player_1(&self) -> (r: &Vec<Square>)
        ensures
            r@ == self@.marked1,
    {
        &self.marked_squares_by_player_1
    }

    pub fn get_marked_by_player_2(&self) -> (r: &Vec<Square>)
        ensures
            r@ == self@.marked2,
    {
        &self.marked_squares_by_player_2
    }

    pub fn get_step_x(&self) -> (r: i64)
        ensures
            r == self@.step_x,
    {
        self.step_x
    }

    pub fn get_step_y(&self) -> (r: i64)
        ensures
            r == self@.step_y,
    {
        self.step_y
    }

    pub fn get_width(&self) -> (r: i64)
        ensures
            r == self@.width,
    {
        self.width
    }

    pub fn get_height(&self) -> (r: i64)
        ensures
            r == self@.height,
    {
        self.height
    }

    pub fn get_temp_line(&self) -> (r: Line)
        ensures
            r == self@.temp_line,
    {
        self.temp_line
    }

    pub fn get_points(&self) -> (r: &Vec<(i64, i64)>)
        ensures
            r@ == self@.points,
    {
        &self.points
    }

    pub fn get_lines(&self) -> (r: Vec<Line>)
        ensures
            r@ == self@.lines,
    {
        let r = self.lines.clone();
        proof {
            assert forall|i: int| 0 <= i < r@.len() implies r@[i] == self.lines@[i] by {
                assert(cloned::<Line>(self.lines@[i], r@[i]));
            }
            assert(r@ =~= self.lines@);
        }
        r
    }

    /// Appends a line to the committed sequence; ownership tallies are
    /// untouched.
    pub fn add_line(&mut self, line: Line)
        ensures
            final(self)@ == (BoardModel { lines: old(self)@.lines.push(line), ..old(self)@ }),
            wf(old(self)@) ==> wf(final(self)@),
    {
        self.lines.push(line);
        proof {
            assert(self@ =~= (BoardModel { lines: old(self)@.lines.push(line), ..old(self)@ }));
        }
    }

    /// Membership test against the committed lines, with the
    /// orientation-insensitive, owner-blind line equality.
    pub fn contains_line(&self, line: &Line) -> (r: bool)
        ensures
            r == line_committed(self@, *line),
    {
        let n = self.lines.len();
        for i in 0..n
            invariant
                n == self.lines@.len(),
                forall|j: int| 0 <= j < i ==> !line_matches(#[trigger] self.lines@[j], *line),
        {
            if self.lines[i] == *line {
                proof {
                    assert(0 <= i < self@.lines.len() && line_matches(self@.lines[i as int], *line));
                }
                return true;
            }
        }
        false
    }

    /// The board is complete exactly when the two players' claimed squares
    /// together cover the whole catalog.
    pub fn is_complete(&self) -> (r: bool)
        requires
            wf(self@),
        ensures
            r == board_complete(self@),
    {
        proof {
            lemma_marked_total_bound(self@);
            lemma_mul_bound(
                (self.width - 1) as int,
                (self.height - 1) as int,
                MAX_DIM as int,
                MAX_DIM as int,
            );
        }
        let total = self.marked_squares_by_player_1.len() + self.marked_squares_by_player_2.len();
        total as i64 == (self.width - 1) * (self.height - 1)
    }

    /// All four edges of catalog square `k` are already committed.
    fn square_edges_committed(&self, k: usize) -> (r: bool)
        requires
            k < self@.squares.len(),
        ensures
            r == square_complete(self@, k as int),
    {
        let s = self.squares[k];
        self.contains_line(&s.line1) && self.contains_line(&s.line2) && self.contains_line(&s.line3)
            && self.contains_line(&s.line4)
    }

    /// The squares a rescan of this board would claim, in catalog order:
    /// every complete catalog square that neither player holds yet.
    fn collect_new_claims(&self) -> (r: Vec<Square>)
        ensures
            r@ == new_claims(self@),
    {
        let mut claims: Vec<Square> = Vec::new();
        let n = self.squares.len();
        for k in 0..n
            invariant
                n == self@.squares.len(),
                claims@ == claims_upto(self@, k as int),
        {
            let s = self.squares[k];
            let complete = self.square_edges_committed(k);
            let c1 = claimed_in(&self.marked_squares_by_player_1, &s);
            let c2 = claimed_in(&self.marked_squares_by_player_2, &s);
            if complete && !c1 && !c2 {
                claims.push(s);
            }
            proof {
                let kk = k as int;
                assert(s == self@.squares[kk]);
                if c1 {
                    let i = choose|i: int|
                        0 <= i < self@.marked1.len() && self@.marked1[i] == s;
                    assert(self@.marked1[i] == self@.squares[kk]);
                }
                if c2 {
                    let i = choose|i: int|
                        0 <= i < self@.marked2.len() && self@.marked2[i] == s;
                    assert(self@.marked2[i] == self@.squares[kk]);
                }
                if square_claimed(self@, kk) && !c1 && !c2 {
                    if exists|i: int|
                        0 <= i < self@.marked1.len() && self@.marked1[i] == self@.squares[kk] {
                        let i = choose|i: int|
                            0 <= i < self@.marked1.len() && self@.marked1[i] == self@.squares[kk];
                        assert(self@.marked1[i] == s);
                    } else {
                        let i = choose|i: int|
                            0 <= i < self@.marked2.len() && self@.marked2[i] == self@.squares[kk];
                        assert(self@.marked2[i] == s);
                    }
                }
                assert(square_claimed(self@, kk) == (c1 || c2));
            }
        }
        claims
    }

    /// Re-derives claimed squares from the entire committed-line history:
    /// every complete catalog square that is claimed by neither player yet
    /// is assigned to `player`. A rescan for nobody changes nothing.
    pub fn update_squares(&mut self, player: Player)
        requires
            wf(old(self)@),
        ensures
            final(self)@ == rescan(old(self)@, player),
            wf(final(self)@),
    {
        proof {
            lemma_rescan_preserves_wf(old(self)@, player);
        }
        if player == Player::Player1 {
            let mut claims = self.collect_new_claims();
            self.marked_squares_by_player_1.append(&mut claims);
            proof {
                assert(self@ =~= rescan(old(self)@, player));
            }
        } else if player == Player::Player2 {
            let mut claims = self.collect_new_claims();
            self.marked_squares_by_player_2.append(&mut claims);
            proof {
                assert(self@ =~= rescan(old(self)@, player));
            }
        } else {
            proof {
                assert(self@ =~= rescan(old(self)@, player));
            }
        }
    }

    /// Resolves a raw pointer position to the nearest grid edge and stages
    /// it as the candidate line, tagged with `next`: the four nearest
    /// eligible grid points bound a small neighborhood around the pointer,
    /// and the pointer's triangle against their approximate center decides
    /// which of their pairings is the edge meant.
    pub fn update_line(&mut self, next: Player, x: i64, y: i64)
        requires
            wf(old(self)@),
            coord_ok(x as int),
            coord_ok(y as int),
        ensures
            final(self)@ == update_line_spec(old(self)@, next, x as int, y as int),
            wf(final(self)@),
    {
        let mut closest_points: Vec<(i64, i64)> = Vec::new();
        for round in 0..4usize
            invariant
                self@ == old(self)@,
                wf(self@),
                coord_ok(x as int),
                coord_ok(y as int),
                closest_points@.len() == round,
                select_upto(self@.points, Seq::empty(), x as int, y as int, 4) == select_upto(
                    self@.points,
                    closest_points@,
                    x as int,
                    y as int,
                    4 - round as int,
                ),
                forall|t: int|
                    0 <= t < closest_points@.len() ==> 0 <= (#[trigger] closest_points@[t]).0
                        <= COORD_LIMIT && 0 <= closest_points@[t].1 <= COORD_LIMIT,
        {
            let mut best: Option<(i64, i64)> = None;
            let n = self.points.len();
            for idx in 0..n
                invariant
                    self@ == old(self)@,
                    wf(self@),
                    coord_ok(x as int),
                    coord_ok(y as int),
                    n == self@.points.len(),
                    best == best_point_upto(
                        self@.points,
                        closest_points@,
                        x as int,
                        y as int,
                        idx as int,
                    ),
                    (match best {
                        Option::Some(q) => 0 <= q.0 <= COORD_LIMIT && 0 <= q.1 <= COORD_LIMIT,
                        Option::None => true,
                    }),
            {
                proof {
                    lemma_points_bounded(self@);
                }
                let p = self.points[idx];
                let eligible = !point_in(&closest_points, p) && !MathOperations::are_on_same_line(
                    p.0,
                    p.1,
                    &closest_points,
                );
                if eligible {
                    let take = match best {
                        Option::None => true,
                        Option::Some(q) => MathOperations::distance_sq(x, y, p.0, p.1)
                            < MathOperations::distance_sq(x, y, q.0, q.1),
                    };
                    if take {
                        best = Some(p);
                    }
                }
            }
            match best {
                Option::Some(p) => {
                    closest_points.push(p);
                },
                Option::None => {
                    return;
                },
            }
        }
        let c0 = closest_points[0];
        let c1 = closest_points[1];
        let c2 = closest_points[2];
        let c3 = closest_points[3];
        let mut middle_x: i64 = 0;
        let mut middle_y: i64 = 0;
        for i in 0..3usize
            invariant
                self@ == old(self)@,
                wf(self@),
                coord_ok(x as int),
                coord_ok(y as int),
                closest_points@.len() == 4,
                forall|t: int|
                    0 <= t < closest_points@.len() ==> 0 <= (#[trigger] closest_points@[t]).0
                        <= COORD_LIMIT && 0 <= closest_points@[t].1 <= COORD_LIMIT,
                middle_x == mid_x_upto(closest_points@, i as int),
                middle_y == mid_y_upto(closest_points@, i as int),
                0 <= middle_x <= COORD_LIMIT,
                0 <= middle_y <= COORD_LIMIT,
        {
            let a = closest_points[i].0;
            let b = closest_points[i + 1].0;
            if a != b {
                let offset = if a < b {
                    a
                } else {
                    b
                };
                let d = if a >= b {
                    a - b
                } else {
                    b - a
                };
                proof {
                    vstd::arithmetic::div_mod::lemma_div_nonincreasing(d as int, 2);
                    vstd::arithmetic::div_mod::lemma_div_pos_is_pos(d as int, 2);
                }
                middle_x = offset + d / 2;
            }
            let ay = closest_points[i].1;
            let by = closest_points[i + 1].1;
            if ay != by {
                let offset = if ay < by {
                    ay
                } else {
                    by
                };
                let d = if ay >= by {
                    ay - by
                } else {
                    by - ay
                };
                proof {
                    vstd::arithmetic::div_mod::lemma_div_nonincreasing(d as int, 2);
                    vstd::arithmetic::div_mod::lemma_div_pos_is_pos(d as int, 2);
                }
                middle_y = offset + d / 2;
            }
        }
        if MathOperations::is_inside_triangle(c0.0, c0.1, c3.0, c3.1, middle_x, middle_y, x, y) {
            self.temp_line = Line::new(c0.0, c0.1, c3.0, c3.1, next);
        } else if MathOperations::is_inside_triangle(
            c0.0,
            c0.1,
            c1.0,
            c1.1,
            middle_x,
            middle_y,
            x,
            y,
        ) {
            self.temp_line = Line::new(c0.0, c0.1, c1.0, c1.1, next);
        } else if MathOperations::is_inside_triangle(
            c1.0,
            c1.1,
            c2.0,
            c2.1,
            middle_x,
            middle_y,
            x,
            y,
        ) {
            self.temp_line = Line::new(c1.0, c1.1, c2.0, c2.1, next);
        } else if MathOperations::is_inside_triangle(
            c2.0,
            c2.1,
            c3.0,
            c3.1,
            middle_x,
            middle_y,
            x,
            y,
        ) {
            self.temp_line = Line::new(c2.0, c2.1, c3.0, c3.1, next);
        }
        proof {
            assert(self@ =~= update_line_spec(old(self)@, next, x as int, y as int));
        }
    }
}

/// An element-by-element copy of `v`.
fn copy_vec<T: Copy>(v: &Vec<T>) -> (r: Vec<T>)
    ensures
        r@ == v@,
{
    let mut r: Vec<T> = Vec::new();
    let n = v.len();
    for i in 0..n
        invariant
            n == v@.len(),
            r@ == v@.take(i as int),
    {
        r.push(v[i]);
        proof {
            assert(v@.take(i + 1) =~= v@.take(i as int).push(v@[i as int]));
        }
    }
    proof {
        assert(v@.take(n as int) =~= v@);
    }
    r
}

impl Clone for Board {
    /// A deep copy with the same mathematical content; the search engine
    /// clones the board once per explored move.
    fn clone(&self) -> (res: Self)
        ensures
            res@ == self@,
    {
        let res = Board {
            width: self.width,
            height: self.height,
            points: copy_vec(&self.points),
            lines: copy_vec(&self.lines),
            temp_line: self.temp_line,
            start_x: self.start_x,
            step_x: self.step_x,
            start_y: self.start_y,
            step_y: self.step_y,
            squares: copy_vec(&self.squares),
            marked_squares_by_player_1: copy_vec(&self.marked_squares_by_player_1),
            marked_squares_by_player_2: copy_vec(&self.marked_squares_by_player_2),
        };
        proof {
            assert(res@ =~= self@);
        }
        res
    }
}

/// `p` occurs in `list`.
fn point_in(list: &Vec<(i64, i64)>, p: (i64, i64)) -> (r: bool)
    ensures
        r == list@.contains(p),
{
    let n = list.len();
    for i in 0..n
        invariant
            n == list@.len(),
            forall|j: int| 0 <= j < i ==> list@[j] != p,
    {
        if list[i].0 == p.0 && list[i].1 == p.1 {
            proof {
                assert(list@[i as int] == p);
            }
            return true;
        }
    }
    proof {
        if list@.contains(p) {
            let j = choose|j: int| 0 <= j < list@.len() && list@[j] == p;
        }
    }
    false
}

/// Field-by-field comparison of two lines, owner tag included (unlike `==`,
/// which ignores owner and orientation).
fn lines_identical(a: &Line, b: &Line) -> (r: bool)
    ensures
        r == (*a == *b),
{
    a.x1 == b.x1 && a.y1 == b.y1 && a.x2 == b.x2 && a.y2 == b.y2 && a.marked_by == b.marked_by
}

/// Field-by-field comparison of two squares.
fn squares_identical(a: &Square, b: &Square) -> (r: bool)
    ensures
        r == (*a == *b),
{
    lines_identical(&a.line1, &b.line1) && lines_identical(&a.line2, &b.line2) && lines_identical(
        &a.line3,
        &b.line3,
    ) && lines_identical(&a.line4, &b.line4)
}

/// `s` occurs in `list`, compared field by field.
fn claimed_in(list: &Vec<Square>, s: &Square) -> (r: bool)
    ensures
        r == (exists|i: int| 0 <= i < list@.len() && list@[i] == *s),
{
    let n = list.len();
    for i in 0..n
        invariant
            n == list@.len(),
            forall|j: int| 0 <= j < i ==> list@[j] != *s,
    {
        if squares_identical(&list[i], s) {
            proof {
                assert(0 <= i < list@.len() && list@[i as int] == *s);
            }
            return true;
        }
    }
    false
}

} // verus!
