//! Day 12: a garden of plots, each with a plant. Plots with the same plant
//! that touch form a region. The price of a fence is the area of a region
//! times its perimeter (part one) or times the number of its straight
//! sides (part two), summed over the regions.

use crate::counting::{grid_count, lemma_count_bound, lemma_count_more};
use crate::solution::{Answer, Part, Solution, SolvedValue};
use crate::text::{chars_of, lines, lines_of, rows};
use vstd::prelude::*;

verus! {

/// The four sides of a plot.
#[derive(Debug, Clone, Copy, PartialEq, Eq, Hash, Structural)]
pub enum Direction {
    Up,
    Down,
    Left,
    Right,
}

impl Direction {
    /// By how many rows the plot on that side lies further down.
    pub open spec fn rows(self) -> int {
        match self {
            Self::Up => -1,
            Self::Down => 1,
            _ => 0,
        }
    }

    /// By how many columns the plot on that side lies further right.
    pub open spec fn cols(self) -> int {
        match self {
            Self::Left => -1,
            Self::Right => 1,
            _ => 0,
        }
    }
}

/// The number of columns of a garden: the length of its first row.
pub open spec fn columns(m: Seq<Seq<char>>) -> int {
    if m.len() == 0 {
        0
    } else {
        m[0].len() as int
    }
}

/// Whether all rows have one length.
pub open spec fn rectangular(m: Seq<Seq<char>>) -> bool {
    forall|r: int| 0 <= r < m.len() ==> (#[trigger] m[r]).len() == columns(m)
}

/// Whether a position is a plot of the garden.
pub open spec fn on(m: Seq<Seq<char>>, r: int, c: int) -> bool {
    0 <= r < m.len() && 0 <= c < columns(m) && c < m[r].len()
}

/// Whether the plot on a side of a plot has the same plant.
pub open spec fn joined(m: Seq<Seq<char>>, r: int, c: int, d: Direction) -> bool {
    on(m, r, c) && on(m, r + d.rows(), c + d.cols()) && m[r][c] == m[r + d.rows()][c + d.cols()]
}

/// Whether a position comes before another, row by row.
pub open spec fn before(a: (int, int), b: (int, int)) -> bool {
    a.0 < b.0 || (a.0 == b.0 && a.1 < b.1)
}

/// The earlier of two positions, of which the second counts only where
/// `with` holds.
pub open spec fn earlier(with: bool, other: (int, int), cur: (int, int)) -> (int, int) {
    if with && before(other, cur) {
        other
    } else {
        cur
    }
}

/// The earliest plot that can be reached from a plot in at most `n` steps
/// over plots with the same plant.
pub open spec fn label(m: Seq<Seq<char>>, r: int, c: int, n: nat) -> (int, int)
    decreases n,
{
    if n == 0 || !on(m, r, c) {
        (r, c)
    } else {
        let k = (n - 1) as nat;
        earlier(
            joined(m, r, c, Direction::Right),
            label(m, r, c + 1, k),
            earlier(
                joined(m, r, c, Direction::Left),
                label(m, r, c - 1, k),
                earlier(
                    joined(m, r, c, Direction::Down),
                    label(m, r + 1, c, k),
                    earlier(joined(m, r, c, Direction::Up), label(m, r - 1, c, k), label(m, r, c, k)),
                ),
            ),
        )
    }
}

/// The number of plots.
pub open spec fn plots(m: Seq<Seq<char>>) -> nat {
    (m.len() * columns(m)) as nat
}

/// For every plot the earliest plot of its region: of the plots that are
/// reached from it in as many steps as there are plots, which are enough
/// (`lemma_plots_enough`).
pub open spec fn regions(m: Seq<Seq<char>>) -> Seq<Seq<(usize, usize)>> {
    Seq::new(
        m.len(),
        |r: int|
            Seq::new(
                columns(m) as nat,
                |c: int| (label(m, r, c, plots(m)).0 as usize, label(m, r, c, plots(m)).1 as usize),
            ),
    )
}

/// Once one more step reaches no earlier plot, no number of steps does.
proof fn lemma_settled(m: Seq<Seq<char>>, n: nat, later: nat)
    requires
        n <= later,
        forall|r: int, c: int| #[trigger] label(m, r, c, n) == label(m, r, c, n + 1),
    ensures
        forall|r: int, c: int| #[trigger] label(m, r, c, later) == label(m, r, c, n),
    decreases later,
{
    if later > n {
        let k = (later - 1) as nat;
        lemma_settled(m, n, k);
        assert forall|r: int, c: int| #[trigger] label(m, r, c, later) == label(m, r, c, n) by {
            assert(label(m, r, c, k) == label(m, r, c, n));
            assert(label(m, r - 1, c, k) == label(m, r - 1, c, n));
            assert(label(m, r + 1, c, k) == label(m, r + 1, c, n));
            assert(label(m, r, c - 1, k) == label(m, r, c - 1, n));
            assert(label(m, r, c + 1, k) == label(m, r, c + 1, n));
            assert(label(m, r, c, n) == label(m, r, c, n + 1));
        }
    }
}

/// Whether the plot `(qr, qc)` is reached from the plot `(pr, pc)` in at
/// most `n` steps, each from a plot to a plot beside it with the same
/// plant.
pub open spec fn within(m: Seq<Seq<char>>, pr: int, pc: int, qr: int, qc: int, n: nat) -> bool
    decreases n,
{
    if n == 0 {
        pr == qr && pc == qc
    } else {
        let k = (n - 1) as nat;
        within(m, pr, pc, qr, qc, k) || (joined(m, qr, qc, Direction::Up) && within(
            m,
            pr,
            pc,
            qr - 1,
            qc,
            k,
        )) || (joined(m, qr, qc, Direction::Down) && within(m, pr, pc, qr + 1, qc, k)) || (joined(
            m,
            qr,
            qc,
            Direction::Left,
        ) && within(m, pr, pc, qr, qc - 1, k)) || (joined(m, qr, qc, Direction::Right) && within(
            m,
            pr,
            pc,
            qr,
            qc + 1,
            k,
        ))
    }
}

/// The plots that are reached from a plot in at most `n` steps, by column
/// and row.
pub open spec fn reached(m: Seq<Seq<char>>, pr: int, pc: int, n: nat) -> spec_fn(int, int) -> bool {
    |x: int, y: int| within(m, pr, pc, y, x, n)
}

/// Whether one more step than `n` reaches no new plot from a plot.
pub open spec fn all_reached(m: Seq<Seq<char>>, pr: int, pc: int, n: nat) -> bool {
    forall|qr: int, qc: int| #[trigger] within(m, pr, pc, qr, qc, n + 1) == within(m, pr, pc, qr, qc, n)
}

proof fn lemma_within_grows(m: Seq<Seq<char>>, pr: int, pc: int, qr: int, qc: int, n: nat, k: nat)
    requires
        within(m, pr, pc, qr, qc, n),
        n <= k,
    ensures
        within(m, pr, pc, qr, qc, k),
    decreases k,
{
    if n < k {
        lemma_within_grows(m, pr, pc, qr, qc, n, (k - 1) as nat);
    }
}

proof fn lemma_within_on(m: Seq<Seq<char>>, pr: int, pc: int, qr: int, qc: int, n: nat)
    requires
        on(m, pr, pc),
        within(m, pr, pc, qr, qc, n),
    ensures
        on(m, qr, qc),
    decreases n,
{
    if n > 0 && within(m, pr, pc, qr, qc, (n - 1) as nat) {
        lemma_within_on(m, pr, pc, qr, qc, (n - 1) as nat);
    }
}

proof fn lemma_within_settled(m: Seq<Seq<char>>, pr: int, pc: int, d: nat, n: nat)
    requires
        all_reached(m, pr, pc, d),
        d <= n,
    ensures
        forall|qr: int, qc: int| #[trigger] within(m, pr, pc, qr, qc, n) == within(m, pr, pc, qr, qc, d),
    decreases n,
{
    if d < n {
        let k = (n - 1) as nat;
        lemma_within_settled(m, pr, pc, d, k);
        assert forall|qr: int, qc: int| #[trigger]
            within(m, pr, pc, qr, qc, n) == within(m, pr, pc, qr, qc, d) by {
            assert(within(m, pr, pc, qr, qc, k) == within(m, pr, pc, qr, qc, d));
            assert(within(m, pr, pc, qr - 1, qc, k) == within(m, pr, pc, qr - 1, qc, d));
            assert(within(m, pr, pc, qr + 1, qc, k) == within(m, pr, pc, qr + 1, qc, d));
            assert(within(m, pr, pc, qr, qc - 1, k) == within(m, pr, pc, qr, qc - 1, d));
            assert(within(m, pr, pc, qr, qc + 1, k) == within(m, pr, pc, qr, qc + 1, d));
            assert(within(m, pr, pc, qr, qc, d + 1) == within(m, pr, pc, qr, qc, d));
        }
    }
}

/// As long as steps reach new plots, each reaches one more at least; so
/// there is a number of steps, no larger than the number of plots, after
/// which one more step reaches no new plot.
proof fn lemma_within_settles(m: Seq<Seq<char>>, pr: int, pc: int, d: nat)
    requires
        rectangular(m),
        on(m, pr, pc),
        grid_count(reached(m, pr, pc, d), columns(m), m.len() as int) >= d,
    ensures
        exists|k: nat| d <= k <= columns(m) * m.len() && all_reached(m, pr, pc, k),
    decreases columns(m) * m.len() - d,
{
    let w = columns(m);
    let h = m.len() as int;
    lemma_count_bound(reached(m, pr, pc, d), w, h);
    if all_reached(m, pr, pc, d) {
    } else {
        let (qr, qc) = choose|qr: int, qc: int| #[trigger]
            within(m, pr, pc, qr, qc, d + 1) != within(m, pr, pc, qr, qc, d);
        let next = (d + 1) as nat;
        assert(within(m, pr, pc, qr, qc, next) && !within(m, pr, pc, qr, qc, d));
        lemma_within_on(m, pr, pc, qr, qc, next);
        assert(reached(m, pr, pc, next)(qc, qr) && !reached(m, pr, pc, d)(qc, qr));
        lemma_count_more(reached(m, pr, pc, d), reached(m, pr, pc, next), w, h, qc, qr);
        lemma_count_bound(reached(m, pr, pc, next), w, h);
        lemma_within_settles(m, pr, pc, next);
    }
}

/// A plot that is reached from a plot at all is reached in no more steps
/// than the garden has plots.
pub proof fn lemma_within_enough(m: Seq<Seq<char>>, pr: int, pc: int, qr: int, qc: int, n: nat)
    requires
        rectangular(m),
        on(m, pr, pc),
        within(m, pr, pc, qr, qc, n),
    ensures
        within(m, pr, pc, qr, qc, plots(m)),
{
    lemma_within_settles(m, pr, pc, 0);
    let k = choose|k: nat| 0 <= k <= columns(m) * m.len() && all_reached(m, pr, pc, k);
    assert(plots(m) == columns(m) * m.len()) by (nonlinear_arith)
        requires
            plots(m) == m.len() * columns(m),
    ;
    if n <= plots(m) {
        lemma_within_grows(m, pr, pc, qr, qc, n, plots(m));
    } else {
        lemma_within_settled(m, pr, pc, k, n);
        assert(within(m, pr, pc, qr, qc, n) == within(m, pr, pc, qr, qc, k));
        lemma_within_grows(m, pr, pc, qr, qc, k, plots(m));
    }
}

/// What is reached from the plot beside a plot is reached from the plot
/// with one step more.
proof fn lemma_step_first(m: Seq<Seq<char>>, pr: int, pc: int, d: Direction, qr: int, qc: int, n: nat)
    requires
        joined(m, pr, pc, d),
        within(m, pr + d.rows(), pc + d.cols(), qr, qc, n),
    ensures
        within(m, pr, pc, qr, qc, n + 1),
    decreases n,
{
    let nr = pr + d.rows();
    let nc = pc + d.cols();
    if n == 0 {
        assert(within(m, pr, pc, pr, pc, 0));
    } else {
        let k = (n - 1) as nat;
        if within(m, nr, nc, qr, qc, k) {
            lemma_step_first(m, pr, pc, d, qr, qc, k);
        } else if joined(m, qr, qc, Direction::Up) && within(m, nr, nc, qr - 1, qc, k) {
            lemma_step_first(m, pr, pc, d, qr - 1, qc, k);
        } else if joined(m, qr, qc, Direction::Down) && within(m, nr, nc, qr + 1, qc, k) {
            lemma_step_first(m, pr, pc, d, qr + 1, qc, k);
        } else if joined(m, qr, qc, Direction::Left) && within(m, nr, nc, qr, qc - 1, k) {
            lemma_step_first(m, pr, pc, d, qr, qc - 1, k);
        } else {
            lemma_step_first(m, pr, pc, d, qr, qc + 1, k);
        }
    }
}

/// Whether `(qr, qc)` is the plot `(pr, pc)` itself or is reached in at
/// most `n` steps from a plot beside it with the same plant.
pub open spec fn from_beside(m: Seq<Seq<char>>, pr: int, pc: int, qr: int, qc: int, n: nat) -> bool {
    (pr == qr && pc == qc) || (joined(m, pr, pc, Direction::Up) && within(m, pr - 1, pc, qr, qc, n))
        || (joined(m, pr, pc, Direction::Down) && within(m, pr + 1, pc, qr, qc, n)) || (joined(
        m,
        pr,
        pc,
        Direction::Left,
    ) && within(m, pr, pc - 1, qr, qc, n)) || (joined(m, pr, pc, Direction::Right) && within(
        m,
        pr,
        pc + 1,
        qr,
        qc,
        n,
    ))
}

proof fn lemma_from_beside_grows(m: Seq<Seq<char>>, pr: int, pc: int, qr: int, qc: int, n: nat)
    requires
        from_beside(m, pr, pc, qr, qc, n),
    ensures
        from_beside(m, pr, pc, qr, qc, n + 1),
{
    if joined(m, pr, pc, Direction::Up) && within(m, pr - 1, pc, qr, qc, n) {
        lemma_within_grows(m, pr - 1, pc, qr, qc, n, n + 1);
    }
    if joined(m, pr, pc, Direction::Down) && within(m, pr + 1, pc, qr, qc, n) {
        lemma_within_grows(m, pr + 1, pc, qr, qc, n, n + 1);
    }
    if joined(m, pr, pc, Direction::Left) && within(m, pr, pc - 1, qr, qc, n) {
        lemma_within_grows(m, pr, pc - 1, qr, qc, n, n + 1);
    }
    if joined(m, pr, pc, Direction::Right) && within(m, pr, pc + 1, qr, qc, n) {
        lemma_within_grows(m, pr, pc + 1, qr, qc, n, n + 1);
    }
}

/// A plot beside one that is reached from a plot beside `(pr, pc)` is
/// reached from a plot beside it with one step more.
proof fn lemma_from_beside_on(
    m: Seq<Seq<char>>,
    pr: int,
    pc: int,
    sr: int,
    sc: int,
    d: Direction,
    n: nat,
)
    requires
        from_beside(m, pr, pc, sr + d.rows(), sc + d.cols(), n),
        joined(m, sr, sc, d),
    ensures
        from_beside(m, pr, pc, sr, sc, n + 1),
{
    let tr = sr + d.rows();
    let tc = sc + d.cols();
    if pr == tr && pc == tc {
        // The plot itself lies beside the other, which is its own start.
        assert(within(m, sr, sc, sr, sc, 0));
        lemma_within_grows(m, sr, sc, sr, sc, 0, n + 1);
        match d {
            Direction::Up => {
                assert(joined(m, pr, pc, Direction::Down));
            },
            Direction::Down => {
                assert(joined(m, pr, pc, Direction::Up));
            },
            Direction::Left => {
                assert(joined(m, pr, pc, Direction::Right));
            },
            Direction::Right => {
                assert(joined(m, pr, pc, Direction::Left));
            },
        }
    } else {
        match d {
            Direction::Up => {},
            Direction::Down => {},
            Direction::Left => {},
            Direction::Right => {},
        }
    }
}

/// What is reached from a plot in one step more is the plot or is reached
/// from a plot beside it.
proof fn lemma_first_step(m: Seq<Seq<char>>, pr: int, pc: int, qr: int, qc: int, n: nat)
    requires
        within(m, pr, pc, qr, qc, n + 1),
    ensures
        from_beside(m, pr, pc, qr, qc, n),
    decreases n,
{
    if within(m, pr, pc, qr, qc, n) {
        if n > 0 {
            lemma_first_step(m, pr, pc, qr, qc, (n - 1) as nat);
            lemma_from_beside_grows(m, pr, pc, qr, qc, (n - 1) as nat);
        }
    } else {
        let d = if joined(m, qr, qc, Direction::Up) && within(m, pr, pc, qr - 1, qc, n) {
            Direction::Up
        } else if joined(m, qr, qc, Direction::Down) && within(m, pr, pc, qr + 1, qc, n) {
            Direction::Down
        } else if joined(m, qr, qc, Direction::Left) && within(m, pr, pc, qr, qc - 1, n) {
            Direction::Left
        } else {
            Direction::Right
        };
        let tr = qr + d.rows();
        let tc = qc + d.cols();
        assert(joined(m, qr, qc, d) && within(m, pr, pc, tr, tc, n));
        if n > 0 {
            lemma_first_step(m, pr, pc, tr, tc, (n - 1) as nat);
            lemma_from_beside_on(m, pr, pc, qr, qc, d, (n - 1) as nat);
        } else {
            assert(from_beside(m, pr, pc, tr, tc, 0));
            lemma_from_beside_zero(m, pr, pc, qr, qc, d);
        }
    }
}

/// A plot beside a plot with the same plant is reached from a plot beside
/// it in no step: it is that plot.
proof fn lemma_from_beside_zero(m: Seq<Seq<char>>, pr: int, pc: int, sr: int, sc: int, d: Direction)
    requires
        pr == sr + d.rows(),
        pc == sc + d.cols(),
        joined(m, sr, sc, d),
    ensures
        from_beside(m, pr, pc, sr, sc, 0),
{
    assert(within(m, sr, sc, sr, sc, 0));
    match d {
        Direction::Up => {
            assert(joined(m, pr, pc, Direction::Down));
        },
        Direction::Down => {
            assert(joined(m, pr, pc, Direction::Up));
        },
        Direction::Left => {
            assert(joined(m, pr, pc, Direction::Right));
        },
        Direction::Right => {
            assert(joined(m, pr, pc, Direction::Left));
        },
    }
}

/// The plot that is named for a plot after `n` steps is reached from it in
/// at most `n` steps.
proof fn lemma_label_within(m: Seq<Seq<char>>, r: int, c: int, n: nat)
    ensures
        within(m, r, c, label(m, r, c, n).0, label(m, r, c, n).1, n),
    decreases n,
{
    if n == 0 || !on(m, r, c) {
        assert(within(m, r, c, r, c, 0));
        lemma_within_grows(m, r, c, r, c, 0, n);
    } else {
        let k = (n - 1) as nat;
        let found = label(m, r, c, n);
        lemma_label_within(m, r, c, k);
        if found == label(m, r, c, k) {
            lemma_within_grows(m, r, c, found.0, found.1, k, n);
        } else if joined(m, r, c, Direction::Right) && found == label(m, r, c + 1, k) {
            lemma_label_within(m, r, c + 1, k);
            lemma_step_first(m, r, c, Direction::Right, found.0, found.1, k);
        } else if joined(m, r, c, Direction::Left) && found == label(m, r, c - 1, k) {
            lemma_label_within(m, r, c - 1, k);
            lemma_step_first(m, r, c, Direction::Left, found.0, found.1, k);
        } else if joined(m, r, c, Direction::Down) && found == label(m, r + 1, c, k) {
            lemma_label_within(m, r + 1, c, k);
            lemma_step_first(m, r, c, Direction::Down, found.0, found.1, k);
        } else {
            lemma_label_within(m, r - 1, c, k);
            lemma_step_first(m, r, c, Direction::Up, found.0, found.1, k);
        }
    }
}

/// No plot that is reached from a plot in at most `n` steps comes before
/// the plot that is named for it after `n` steps.
proof fn lemma_label_least(m: Seq<Seq<char>>, r: int, c: int, n: nat, qr: int, qc: int)
    requires
        on(m, r, c),
        within(m, r, c, qr, qc, n),
    ensures
        !before((qr, qc), label(m, r, c, n)),
    decreases n,
{
    if n > 0 {
        let k = (n - 1) as nat;
        lemma_first_step(m, r, c, qr, qc, k);
        assert(within(m, r, c, r, c, 0));
        lemma_within_grows(m, r, c, r, c, 0, k);
        lemma_label_least(m, r, c, k, r, c);
        if qr == r && qc == c {
        } else if joined(m, r, c, Direction::Up) && within(m, r - 1, c, qr, qc, k) {
            lemma_label_least(m, r - 1, c, k, qr, qc);
        } else if joined(m, r, c, Direction::Down) && within(m, r + 1, c, qr, qc, k) {
            lemma_label_least(m, r + 1, c, k, qr, qc);
        } else if joined(m, r, c, Direction::Left) && within(m, r, c - 1, qr, qc, k) {
            lemma_label_least(m, r, c - 1, k, qr, qc);
        } else {
            lemma_label_least(m, r, c + 1, k, qr, qc);
        }
    }
}

/// As many steps as a garden has plots are enough: with more steps no
/// other plot is named for a plot, so `regions` names for every plot the
/// earliest plot of all that are reached from it in any number of steps.
pub proof fn lemma_plots_enough(m: Seq<Seq<char>>, r: int, c: int, n: nat)
    requires
        rectangular(m),
        n >= plots(m),
    ensures
        label(m, r, c, n) == label(m, r, c, plots(m)),
{
    if on(m, r, c) {
        let far = label(m, r, c, n);
        let near = label(m, r, c, plots(m));
        lemma_label_within(m, r, c, n);
        lemma_within_enough(m, r, c, far.0, far.1, n);
        lemma_label_least(m, r, c, plots(m), far.0, far.1);
        lemma_label_within(m, r, c, plots(m));
        lemma_within_grows(m, r, c, near.0, near.1, plots(m), n);
        lemma_label_least(m, r, c, n, near.0, near.1);
    } else {
        lemma_label_off(m, r, c, n);
        lemma_label_off(m, r, c, plots(m));
    }
}

/// A position that is no plot is named for itself.
proof fn lemma_label_off(m: Seq<Seq<char>>, r: int, c: int, n: nat)
    requires
        !on(m, r, c),
    ensures
        label(m, r, c, n) == (r, c),
{
}

/// A table that names a plot for every plot of a garden.
pub struct Labels {
    pub cells: Vec<Vec<(usize, usize)>>,
}

impl Labels {
    /// Whether the table has a place for every plot of the garden.
    pub open spec fn shaped(&self, m: Seq<Seq<char>>) -> bool {
        &&& self.cells.len() == m.len()
        &&& forall|r: int| 0 <= r < self.cells.len() ==> (#[trigger] self.cells@[r]).len() == columns(m)
    }

    /// The plot that the table names for a plot.
    pub open spec fn at(&self, r: int, c: int) -> (int, int) {
        (self.cells@[r]@[c].0 as int, self.cells@[r]@[c].1 as int)
    }

    /// Whether the table names, for every plot, the earliest plot reached
    /// in at most `n` steps.
    pub open spec fn holds(&self, m: Seq<Seq<char>>, n: nat) -> bool {
        &&& self.shaped(m)
        &&& forall|r: int, c: int|
            0 <= r < m.len() && 0 <= c < columns(m) ==> #[trigger] self.at(r, c) == label(m, r, c, n)
    }
}

fn sooner(a: (usize, usize), b: (usize, usize)) -> (r: bool)
    ensures
        r == before((a.0 as int, a.1 as int), (b.0 as int, b.1 as int)),
{
    a.0 < b.0 || (a.0 == b.0 && a.1 < b.1)
}

/// The position of the plot on a side of a plot, where it is a plot of a
/// garden with `height` rows and `width` columns.
fn beside(r: usize, c: usize, d: Direction, height: usize, width: usize) -> (n: Option<(usize, usize)>)
    requires
        r < height,
        c < width,
    ensures
        match n {
            Some((r2, c2)) => r2 == r + d.rows() && c2 == c + d.cols() && r2 < height && c2 < width,
            None => !(0 <= r + d.rows() < height && 0 <= c + d.cols() < width),
        },
{
    match d {
        Direction::Up => if r > 0 {
            Some((r - 1, c))
        } else {
            None
        },
        Direction::Down => if r + 1 < height {
            Some((r + 1, c))
        } else {
            None
        },
        Direction::Left => if c > 0 {
            Some((r, c - 1))
        } else {
            None
        },
        Direction::Right => if c + 1 < width {
            Some((r, c + 1))
        } else {
            None
        },
    }
}

/// The earlier of `cur` and what `prev` names for the plot on a side, if
/// that has the same plant.
fn pull(
    map: &Vec<Vec<char>>,
    prev: &Labels,
    r: usize,
    c: usize,
    d: Direction,
    cur: (usize, usize),
    Ghost(k): Ghost<nat>,
) -> (best: (usize, usize))
    requires
        rectangular(rows(map@)),
        prev.holds(rows(map@), k),
        r < map.len(),
        c < columns(rows(map@)),
    ensures
        (best.0 as int, best.1 as int) == earlier(
            joined(rows(map@), r as int, c as int, d),
            label(rows(map@), r + d.rows(), c + d.cols(), k),
            (cur.0 as int, cur.1 as int),
        ),
{
    let ghost m = rows(map@);
    assert(m[0] == map@[0]@);
    assert(m[r as int] == map@[r as int]@);
    let width = map[0].len();
    match beside(r, c, d, map.len(), width) {
        Some((r2, c2)) => {
            assert(m[r2 as int] == map@[r2 as int]@);
            assert(prev.at(r2 as int, c2 as int) == label(m, r2 as int, c2 as int, k));
            if map[r][c] == map[r2][c2] && sooner(prev.cells[r2][c2], cur) {
                prev.cells[r2][c2]
            } else {
                cur
            }
        },
        None => cur,
    }
}

/// One more step for every plot, and whether it changed a name.
fn sweep(map: &Vec<Vec<char>>, prev: &Labels, Ghost(k): Ghost<nat>) -> (r: (Labels, bool))
    requires
        rectangular(rows(map@)),
        prev.holds(rows(map@), k),
    ensures
        r.0.holds(rows(map@), k + 1),
        !r.1 ==> forall|row: int, col: int| #[trigger]
            label(rows(map@), row, col, k) == label(rows(map@), row, col, k + 1),
{
    let ghost m = rows(map@);
    let height = map.len();
    let mut changed = false;
    let mut cells: Vec<Vec<(usize, usize)>> = Vec::new();
    let mut row: usize = 0;
    while row < height
        invariant
            row <= height,
            height == map.len(),
            m == rows(map@),
            rectangular(m),
            prev.holds(m, k),
            cells.len() == row,
            forall|r: int| 0 <= r < row ==> (#[trigger] cells@[r]).len() == columns(m),
            forall|r: int, c: int|
                0 <= r < row && 0 <= c < columns(m) ==> #[trigger] (Labels { cells }).at(r, c)
                    == label(m, r, c, k + 1),
            !changed ==> forall|r: int, c: int|
                0 <= r < row && 0 <= c < columns(m) ==> #[trigger] label(m, r, c, k) == label(
                    m,
                    r,
                    c,
                    k + 1,
                ),
        decreases height - row,
    {
        assert(m[0] == map@[0]@);
        let width = map[0].len();
        let mut line: Vec<(usize, usize)> = Vec::new();
        let mut col: usize = 0;
        while col < width
            invariant
                col <= width,
                width == columns(m),
                row < height,
                height == map.len(),
                m == rows(map@),
                rectangular(m),
                prev.holds(m, k),
                line.len() == col,
                forall|c: int|
                    0 <= c < col ==> (#[trigger] line@[c].0 as int, line@[c].1 as int) == label(
                        m,
                        row as int,
                        c,
                        k + 1,
                    ),
                !changed ==> forall|r: int, c: int|
                    0 <= r < row && 0 <= c < columns(m) ==> #[trigger] label(m, r, c, k) == label(
                        m,
                        r,
                        c,
                        k + 1,
                    ),
                !changed ==> forall|c: int|
                    0 <= c < col ==> #[trigger] label(m, row as int, c, k) == label(
                        m,
                        row as int,
                        c,
                        k + 1,
                    ),
            decreases width - col,
        {
            let old = prev.cells[row][col];
            assert(prev.at(row as int, col as int) == label(m, row as int, col as int, k));
            assert(m[row as int] == map@[row as int]@);
            let up = pull(map, prev, row, col, Direction::Up, old, Ghost(k));
            let down = pull(map, prev, row, col, Direction::Down, up, Ghost(k));
            let left = pull(map, prev, row, col, Direction::Left, down, Ghost(k));
            let right = pull(map, prev, row, col, Direction::Right, left, Ghost(k));
            if right.0 != old.0 || right.1 != old.1 {
                changed = true;
            }
            line.push(right);
            col += 1;
        }
        let ghost before = Labels { cells };
        cells.push(line);
        proof {
            let after = Labels { cells };
            assert forall|r: int, c: int| 0 <= r < row + 1 && 0 <= c < columns(m) implies #[trigger]
                after.at(r, c) == label(m, r, c, k + 1) by {
                if r < row {
                    assert(after.cells@[r] == before.cells@[r]);
                    assert(before.at(r, c) == after.at(r, c));
                }
            }
        }
        row += 1;
    }
    proof {
        if !changed {
            assert forall|r: int, c: int| #[trigger]
                label(m, r, c, k) == label(m, r, c, k + 1) by {
                if on(m, r, c) {
                    assert(0 <= r < row && 0 <= c < columns(m));
                }
            }
        }
    }
    (Labels { cells }, changed)
}

/// Names, for every plot, the earliest plot of its region.
pub fn flood(map: &Vec<Vec<char>>) -> (r: Option<Labels>)
    requires
        rectangular(rows(map@)),
    ensures
        match r {
            Some(labels) => rows(labels.cells@) == regions(rows(map@)) && plots(rows(map@))
                <= usize::MAX,
            None => plots(rows(map@)) > usize::MAX,
        },
{
    let ghost m = rows(map@);
    let height = map.len();
    let width = if height == 0 {
        0
    } else {
        assert(m[0] == map@[0]@);
        map[0].len()
    };
    let total = match height.checked_mul(width) {
        Some(total) => total,
        None => {
            return None;
        },
    };
    // Every plot names itself.
    let mut cells: Vec<Vec<(usize, usize)>> = Vec::new();
    let mut row: usize = 0;
    while row < height
        invariant
            row <= height,
            height == map.len(),
            m == rows(map@),
            width == columns(m),
            cells.len() == row,
            forall|r: int| 0 <= r < row ==> (#[trigger] cells@[r]).len() == width,
            forall|r: int, c: int|
                0 <= r < row && 0 <= c < width ==> #[trigger] (Labels { cells }).at(r, c) == (r, c),
        decreases height - row,
    {
        let mut line: Vec<(usize, usize)> = Vec::new();
        let mut col: usize = 0;
        while col < width
            invariant
                col <= width,
                line.len() == col,
                forall|c: int| 0 <= c < col ==> #[trigger] line@[c] == (row, c as usize),
            decreases width - col,
        {
            line.push((row, col));
            col += 1;
        }
        let ghost before = Labels { cells };
        cells.push(line);
        proof {
            let after = Labels { cells };
            assert forall|r: int, c: int| 0 <= r < row + 1 && 0 <= c < width implies #[trigger]
                after.at(r, c) == (r, c) by {
                if r < row {
                    assert(after.cells@[r] == before.cells@[r]);
                    assert(before.at(r, c) == after.at(r, c));
                }
            }
        }
        row += 1;
    }
    let mut table = Labels { cells };
    let mut n: usize = 0;
    let mut changed = true;
    while n < total && changed
        invariant
            n <= total,
            total == plots(m),
            m == rows(map@),
            rectangular(m),
            table.holds(m, n as nat),
            !changed ==> forall|r: int, c: int| #[trigger]
                label(m, r, c, n as nat) == label(m, r, c, (n + 1) as nat),
        decreases total - n + (if changed { 1int } else { 0int }),
    {
        let (next, differs) = sweep(map, &table, Ghost(n as nat));
        if differs {
            table = next;
            n += 1;
        } else {
            changed = false;
        }
    }
    proof {
        if n < total {
            lemma_settled(m, n as nat, total as nat);
        }
        assert forall|r: int, c: int| 0 <= r < m.len() && 0 <= c < columns(m) implies #[trigger]
            table.at(r, c) == label(m, r, c, plots(m)) by {
            assert(label(m, r, c, total as nat) == label(m, r, c, n as nat));
        }
        assert forall|r: int| 0 <= r < m.len() implies #[trigger] rows(table.cells@)[r] =~= regions(
            m,
        )[r] by {
            assert forall|c: int| 0 <= c < columns(m) implies rows(table.cells@)[r][c] == regions(
                m,
            )[r][c] by {
                assert(table.at(r, c) == label(m, r, c, plots(m)));
            }
        }
        assert(rows(table.cells@) =~= regions(m));
    }
    Some(table)
}

/// What is counted of a region.
#[derive(Debug, Clone, Copy, PartialEq, Eq, Structural)]
pub enum Measure {
    /// The number of its plots.
    Area,
    /// The number of sides of its plots that do not touch a plot of it.
    Perimeter,
    /// The number of straight stretches of its fence.
    Sides,
}

/// Whether a position is a plot of a table of regions.
pub open spec fn inside(t: Seq<Seq<(usize, usize)>>, r: int, c: int) -> bool {
    0 <= r < t.len() && 0 <= c < t[r].len()
}

/// Whether a side of a plot is part of the fence: the plot beyond it is no
/// plot of the same region.
pub open spec fn fenced(t: Seq<Seq<(usize, usize)>>, r: int, c: int, d: Direction) -> bool {
    inside(t, r, c) && !(inside(t, r + d.rows(), c + d.cols()) && t[r + d.rows()][c + d.cols()]
        == t[r][c])
}

/// Whether a fenced side of a plot begins a straight stretch of the fence:
/// the plot before it along the fence, to the left for the upper and lower
/// sides and above for the left and right sides, is no plot of the same
/// region with that side fenced.
pub open spec fn begins_side(t: Seq<Seq<(usize, usize)>>, r: int, c: int, d: Direction) -> bool {
    let (pr, pc) = if d == Direction::Up || d == Direction::Down {
        (r, c - 1)
    } else {
        (r - 1, c)
    };
    fenced(t, r, c, d) && !(inside(t, pr, pc) && t[pr][pc] == t[r][c] && fenced(t, pr, pc, d))
}

pub open spec fn one_if(b: bool) -> usize {
    if b {
        1
    } else {
        0
    }
}

/// What a plot adds to a measure of the region of `root`.
pub open spec fn weight(
    t: Seq<Seq<(usize, usize)>>,
    root: (usize, usize),
    measure: Measure,
    r: int,
    c: int,
) -> usize {
    if inside(t, r, c) && t[r][c] == root {
        match measure {
            Measure::Area => 1,
            Measure::Perimeter => (one_if(fenced(t, r, c, Direction::Up)) + one_if(
                fenced(t, r, c, Direction::Down),
            ) + one_if(fenced(t, r, c, Direction::Left)) + one_if(
                fenced(t, r, c, Direction::Right),
            )) as usize,
            Measure::Sides => (one_if(begins_side(t, r, c, Direction::Up)) + one_if(
                begins_side(t, r, c, Direction::Down),
            ) + one_if(begins_side(t, r, c, Direction::Left)) + one_if(
                begins_side(t, r, c, Direction::Right),
            )) as usize,
        }
    } else {
        0
    }
}

/// A measure of the region of `root` over the plots from row `r`, column
/// `c` on, row by row, added to `acc`; `None` where it does not fit the
/// machine word.
pub open spec fn measured(
    t: Seq<Seq<(usize, usize)>>,
    root: (usize, usize),
    measure: Measure,
    r: int,
    c: int,
    acc: usize,
) -> Option<usize>
    decreases t.len() - r, (if 0 <= r < t.len() { t[r].len() - c } else { 0 }),
{
    if r < 0 || r >= t.len() || c < 0 {
        Some(acc)
    } else if c >= t[r].len() {
        measured(t, root, measure, r + 1, 0, acc)
    } else {
        match acc.checked_add(weight(t, root, measure, r, c)) {
            Some(more) => measured(t, root, measure, r, c + 1, more),
            None => None,
        }
    }
}

/// The regions of a table, each named by its earliest plot: those whose
/// earliest plot lies at row `r`, column `c` or after it, row by row.
pub open spec fn roots_from(t: Seq<Seq<(usize, usize)>>, r: int, c: int) -> Seq<(usize, usize)>
    decreases t.len() - r, (if 0 <= r < t.len() { t[r].len() - c } else { 0 }),
{
    if r < 0 || r >= t.len() || c < 0 {
        Seq::empty()
    } else if c >= t[r].len() {
        roots_from(t, r + 1, 0)
    } else if t[r][c] == (r as usize, c as usize) {
        seq![t[r][c]] + roots_from(t, r, c + 1)
    } else {
        roots_from(t, r, c + 1)
    }
}

/// The price of the region of `root`: its area times another measure of
/// it. `None` where a number does not fit the machine word.
pub open spec fn region_price(t: Seq<Seq<(usize, usize)>>, root: (usize, usize), by: Measure) -> Option<
    usize,
> {
    match (measured(t, root, Measure::Area, 0, 0, 0), measured(t, root, by, 0, 0, 0)) {
        (Some(area), Some(other)) => area.checked_mul(other),
        _ => None,
    }
}

/// The sum of the prices from `i` on, added to `acc`. `None` where a price
/// is missing or the sum does not fit the machine word.
pub open spec fn total_from(prices: Seq<Option<usize>>, i: int, acc: usize) -> Option<usize>
    decreases prices.len() - i,
{
    if i < 0 || i >= prices.len() {
        Some(acc)
    } else {
        match prices[i] {
            Some(price) => match acc.checked_add(price) {
                Some(more) => total_from(prices, i + 1, more),
                None => None,
            },
            None => None,
        }
    }
}

/// The prices of all regions of a table, each its area times another
/// measure of it, in the order of their earliest plots.
pub open spec fn prices_of(t: Seq<Seq<(usize, usize)>>, by: Measure) -> Seq<Option<usize>> {
    Seq::new(roots_from(t, 0, 0).len(), |i: int| region_price(t, roots_from(t, 0, 0)[i], by))
}

/// The price of a garden: the sum of the prices of its regions.
pub open spec fn priced(t: Seq<Seq<(usize, usize)>>, by: Measure) -> Option<usize> {
    total_from(prices_of(t, by), 0, 0)
}

/// Whether a list holds, for each region of a table, a price that a
/// pricing function gives for it.
pub open spec fn priced_by<F: Fn(&Labels, (usize, usize)) -> Option<usize>>(
    pricer: F,
    table: &Labels,
    prices: Seq<Option<usize>>,
) -> bool {
    let roots = roots_from(rows(table.cells@), 0, 0);
    prices.len() == roots.len() && forall|i: int|
        0 <= i < roots.len() ==> call_ensures(pricer, (table, #[trigger] roots[i]), prices[i])
}

/// The position on a side of a position, where its row and column are
/// numbers of the machine.
fn toward(r: usize, c: usize, d: Direction) -> (n: Option<(usize, usize)>)
    ensures
        match n {
            Some((r2, c2)) => r2 == r + d.rows() && c2 == c + d.cols(),
            None => !(0 <= r + d.rows() <= usize::MAX && 0 <= c + d.cols() <= usize::MAX),
        },
{
    match d {
        Direction::Up => if r > 0 {
            Some((r - 1, c))
        } else {
            None
        },
        Direction::Down => if r < usize::MAX {
            Some((r + 1, c))
        } else {
            None
        },
        Direction::Left => if c > 0 {
            Some((r, c - 1))
        } else {
            None
        },
        Direction::Right => if c < usize::MAX {
            Some((r, c + 1))
        } else {
            None
        },
    }
}

impl Labels {
    fn same_region(&self, r: usize, c: usize, d: Direction) -> (b: bool)
        requires
            inside(rows(self.cells@), r as int, c as int),
        ensures
            b == !fenced(rows(self.cells@), r as int, c as int, d),
    {
        let ghost t = rows(self.cells@);
        assert(t[r as int] == self.cells@[r as int]@);
        let here = self.cells[r][c];
        match toward(r, c, d) {
            Some((r2, c2)) => {
                if r2 < self.cells.len() {
                    assert(t[r2 as int] == self.cells@[r2 as int]@);
                    if c2 < self.cells[r2].len() {
                        let there = self.cells[r2][c2];
                        there.0 == here.0 && there.1 == here.1
                    } else {
                        false
                    }
                } else {
                    false
                }
            },
            None => {
                assert(t.len() == self.cells.len());
                assert(t[r as int].len() == self.cells[r as int].len());
                false
            },
        }
    }

    fn starts_side(&self, r: usize, c: usize, d: Direction) -> (b: bool)
        requires
            inside(rows(self.cells@), r as int, c as int),
        ensures
            b == begins_side(rows(self.cells@), r as int, c as int, d),
    {
        let ghost t = rows(self.cells@);
        assert(t[r as int] == self.cells@[r as int]@);
        if self.same_region(r, c, d) {
            return false;
        }
        let here = self.cells[r][c];
        let along = match d {
            Direction::Up | Direction::Down => if c > 0 {
                Some((r, c - 1))
            } else {
                None
            },
            _ => if r > 0 {
                Some((r - 1, c))
            } else {
                None
            },
        };
        match along {
            Some((pr, pc)) => {
                assert(t[pr as int] == self.cells@[pr as int]@);
                if pc < self.cells[pr].len() {
                    let there = self.cells[pr][pc];
                    !(there.0 == here.0 && there.1 == here.1 && !self.same_region(pr, pc, d))
                } else {
                    true
                }
            },
            None => true,
        }
    }

    fn weigh(&self, root: (usize, usize), measure: Measure, r: usize, c: usize) -> (w: usize)
        requires
            inside(rows(self.cells@), r as int, c as int),
        ensures
            w == weight(rows(self.cells@), root, measure, r as int, c as int),
    {
        let ghost t = rows(self.cells@);
        assert(t[r as int] == self.cells@[r as int]@);
        let here = self.cells[r][c];
        if !(here.0 == root.0 && here.1 == root.1) {
            return 0;
        }
        match measure {
            Measure::Area => 1,
            Measure::Perimeter => {
                let up: usize = if self.same_region(r, c, Direction::Up) { 0 } else { 1 };
                let down: usize = if self.same_region(r, c, Direction::Down) { 0 } else { 1 };
                let left: usize = if self.same_region(r, c, Direction::Left) { 0 } else { 1 };
                let right: usize = if self.same_region(r, c, Direction::Right) { 0 } else { 1 };
                up + down + left + right
            },
            Measure::Sides => {
                let up: usize = if self.starts_side(r, c, Direction::Up) { 1 } else { 0 };
                let down: usize = if self.starts_side(r, c, Direction::Down) { 1 } else { 0 };
                let left: usize = if self.starts_side(r, c, Direction::Left) { 1 } else { 0 };
                let right: usize = if self.starts_side(r, c, Direction::Right) { 1 } else { 0 };
                up + down + left + right
            },
        }
    }

    /// A measure of the region of `root`.
    pub fn measure(&self, root: (usize, usize), measure: Measure) -> (r: Option<usize>)
        ensures
            r == measured(rows(self.cells@), root, measure, 0, 0, 0),
    {
        let ghost t = rows(self.cells@);
        let mut total: usize = 0;
        let mut row: usize = 0;
        while row < self.cells.len()
            invariant
                row <= self.cells.len(),
                t == rows(self.cells@),
                measured(t, root, measure, 0, 0, 0) == measured(t, root, measure, row as int, 0, total),
            decreases self.cells.len() - row,
        {
            assert(t[row as int] == self.cells@[row as int]@);
            let mut col: usize = 0;
            while col < self.cells[row].len()
                invariant
                    row < self.cells.len(),
                    col <= self.cells@[row as int].len(),
                    t == rows(self.cells@),
                    t[row as int] == self.cells@[row as int]@,
                    measured(t, root, measure, 0, 0, 0) == measured(
                        t,
                        root,
                        measure,
                        row as int,
                        col as int,
                        total,
                    ),
                decreases self.cells@[row as int].len() - col,
            {
                let w = self.weigh(root, measure, row, col);
                total = match total.checked_add(w) {
                    Some(more) => more,
                    None => {
                        return None;
                    },
                };
                col += 1;
            }
            row += 1;
        }
        Some(total)
    }

    /// The number of plots of the region of `root`.
    pub fn area(&self, root: (usize, usize)) -> (r: Option<usize>)
        ensures
            r == measured(rows(self.cells@), root, Measure::Area, 0, 0, 0),
    {
        self.measure(root, Measure::Area)
    }

    /// The length of the fence of the region of `root`.
    pub fn perimeter(&self, root: (usize, usize)) -> (r: Option<usize>)
        ensures
            r == measured(rows(self.cells@), root, Measure::Perimeter, 0, 0, 0),
    {
        self.measure(root, Measure::Perimeter)
    }

    /// The number of straight stretches of the fence of the region of
    /// `root`.
    pub fn sides(&self, root: (usize, usize)) -> (r: Option<usize>)
        ensures
            r == measured(rows(self.cells@), root, Measure::Sides, 0, 0, 0),
    {
        self.measure(root, Measure::Sides)
    }

    /// The price of the region of `root`: its area times another measure
    /// of it.
    pub fn price(&self, root: (usize, usize), by: Measure) -> (r: Option<usize>)
        ensures
            r == region_price(rows(self.cells@), root, by),
    {
        match (self.area(root), self.measure(root, by)) {
            (Some(area), Some(other)) => area.checked_mul(other),
            _ => None,
        }
    }

    /// The regions of the table, each named by its earliest plot.
    pub fn roots(&self) -> (r: Vec<(usize, usize)>)
        ensures
            r@ == roots_from(rows(self.cells@), 0, 0),
    {
        let ghost t = rows(self.cells@);
        let mut found: Vec<(usize, usize)> = Vec::new();
        let mut row: usize = 0;
        assert(found@ + roots_from(t, 0, 0) =~= roots_from(t, 0, 0));
        while row < self.cells.len()
            invariant
                row <= self.cells.len(),
                t == rows(self.cells@),
                roots_from(t, 0, 0) == found@ + roots_from(t, row as int, 0),
            decreases self.cells.len() - row,
        {
            assert(t[row as int] == self.cells@[row as int]@);
            let mut col: usize = 0;
            while col < self.cells[row].len()
                invariant
                    row < self.cells.len(),
                    col <= self.cells@[row as int].len(),
                    t == rows(self.cells@),
                    t[row as int] == self.cells@[row as int]@,
                    roots_from(t, 0, 0) == found@ + roots_from(t, row as int, col as int),
                decreases self.cells@[row as int].len() - col,
            {
                let root = self.cells[row][col];
                let ghost before = found@;
                if root.0 == row && root.1 == col {
                    found.push(root);
                    assert(found@ + roots_from(t, row as int, col + 1) =~= before + (seq![root]
                        + roots_from(t, row as int, col + 1)));
                }
                col += 1;
            }
            row += 1;
        }
        assert(found@ + roots_from(t, row as int, 0) =~= found@);
        found
    }

    /// The price of all regions: the sum of what a pricing function gives
    /// for each region, which is named by its earliest plot. The function is
    /// asked once for every region, in the order of their earliest plots.
    /// `None` where a price is missing or the sum does not fit the machine
    /// word.
    pub fn get_price<F: Fn(&Labels, (usize, usize)) -> Option<usize>>(&self, pricer: F) -> (r: Option<
        usize,
    >)
        requires
            forall|root: (usize, usize)| call_requires(pricer, (self, root)),
        ensures
            exists|prices: Seq<Option<usize>>|
                priced_by(pricer, self, prices) && r == total_from(prices, 0, 0),
    {
        let roots = self.roots();
        let mut prices: Vec<Option<usize>> = Vec::new();
        let mut i: usize = 0;
        while i < roots.len()
            invariant
                i <= roots.len(),
                prices.len() == i,
                roots@ == roots_from(rows(self.cells@), 0, 0),
                forall|root: (usize, usize)| call_requires(pricer, (self, root)),
                forall|j: int| 0 <= j < i ==> call_ensures(pricer, (self, #[trigger] roots@[j]), prices@[j]),
            decreases roots.len() - i,
        {
            let price = pricer(self, roots[i]);
            prices.push(price);
            i += 1;
        }
        assert(priced_by(pricer, self, prices@));
        let r = sum_prices(&prices);
        r
    }
}

/// The sum of a list of prices.
fn sum_prices(prices: &Vec<Option<usize>>) -> (r: Option<usize>)
    ensures
        r == total_from(prices@, 0, 0),
{
    let mut total: usize = 0;
    let mut i: usize = 0;
    while i < prices.len()
        invariant
            i <= prices.len(),
            total_from(prices@, 0, 0) == total_from(prices@, i as int, total),
        decreases prices.len() - i,
    {
        let more = match prices[i] {
            Some(price) => total.checked_add(price),
            None => None,
        };
        total = match more {
            Some(more) => more,
            None => {
                return None;
            },
        };
        i += 1;
    }
    Some(total)
}

/// The garden that a puzzle text draws: one line for each row, one
/// character for the plant of each plot. `None` where the lines differ in
/// length.
pub open spec fn parse_garden(input: Seq<char>) -> Option<Seq<Seq<char>>> {
    if rectangular(lines(input)) {
        Some(lines(input))
    } else {
        None
    }
}

/// Reads the garden that a puzzle text draws.
pub fn parse_input(input: &Vec<char>) -> (r: Option<Vec<Vec<char>>>)
    ensures
        match r {
            Some(map) => parse_garden(input@) == Some(rows(map@)),
            None => parse_garden(input@) is None,
        },
{
    let map = lines_of(input);
    let ghost m = rows(map@);
    let mut row: usize = 0;
    while row < map.len()
        invariant
            row <= map.len(),
            m == rows(map@),
            m == lines(input@),
            forall|r: int| 0 <= r < row ==> (#[trigger] m[r]).len() == columns(m),
        decreases map.len() - row,
    {
        assert(m[row as int] == map@[row as int]@);
        assert(m[0] == map@[0]@);
        if map[row].len() != map[0].len() {
            return None;
        }
        row += 1;
    }
    Some(map)
}

/// The answer of a part.
pub open spec fn solve(input: Seq<char>, part: Part) -> Option<Answer> {
    match parse_garden(input) {
        Some(m) => if plots(m) > usize::MAX {
            None
        } else {
            match priced(
                regions(m),
                if part == Part::One {
                    Measure::Perimeter
                } else {
                    Measure::Sides
                },
            ) {
                Some(n) => Some(Answer::Number(n)),
                None => None,
            }
        },
        None => None,
    }
}

fn price_of(input: &str, by: Measure) -> (r: Option<SolvedValue>)
    ensures
        crate::solution::answer_of(r) == (match parse_garden(input@) {
            Some(m) => if plots(m) > usize::MAX {
                None
            } else {
                match priced(regions(m), by) {
                    Some(n) => Some(Answer::Number(n)),
                    None => None,
                }
            },
            None => None,
        }),
{
    let chars = chars_of(input);
    let map = match parse_input(&chars) {
        Some(map) => map,
        None => {
            return None;
        },
    };
    let labels = match flood(&map) {
        Some(labels) => labels,
        None => {
            return None;
        },
    };
    let each = |table: &Labels, root: (usize, usize)| -> (price: Option<usize>)
        ensures
            price == region_price(rows(table.cells@), root, by),
        { table.price(root, by) };
    let total = labels.get_price(each);
    proof {
        let t = rows(labels.cells@);
        let prices = choose|prices: Seq<Option<usize>>|
            priced_by(each, &labels, prices) && total == total_from(prices, 0, 0);
        assert(prices =~= prices_of(t, by));
    }
    match total {
        Some(n) => Some(SolvedValue::Number(n)),
        None => None,
    }
}

pub struct Day;

impl Solution for Day {
    open spec fn answer(&self, input: Seq<char>, part: Part) -> Option<Answer> {
        solve(input, part)
    }

    fn part1(&self, input: &str) -> (r: Option<SolvedValue>) {
        price_of(input, Measure::Perimeter)
    }

    fn part2(&self, input: &str) -> (r: Option<SolvedValue>) {
        price_of(input, Measure::Sides)
    }
}

} // verus!
