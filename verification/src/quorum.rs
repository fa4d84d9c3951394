//! Quorum systems and the policy a run judges its configurations by.
use vstd::prelude::*;
use vstd::set_lib::lemma_len_subset;

verus! {

/// How one configuration of `n` acceptors is judged.
#[derive(Clone, Copy, Debug, PartialEq, Eq, Structural)]
pub enum QuorumSystem {
    /// A majority in both phases.
    Majority,
    /// `q1` promises elect, `q2` accepts decide.
    Flexible { q1: usize, q2: usize },
    /// Rows elect, columns decide.
    Grid { rows: usize, cols: usize },
}

impl QuorumSystem {
    /// How many acceptors a Phase-1 quorum of `n` has.
    pub open spec fn phase1(self, n: nat) -> nat {
        match self {
            QuorumSystem::Majority => n / 2 + 1,
            QuorumSystem::Flexible { q1, q2 } => q1 as nat,
            QuorumSystem::Grid { rows, cols } => cols as nat,
        }
    }

    /// How many acceptors a Phase-2 quorum of `n` has.
    pub open spec fn phase2(self, n: nat) -> nat {
        match self {
            QuorumSystem::Majority => n / 2 + 1,
            QuorumSystem::Flexible { q1, q2 } => q2 as nat,
            QuorumSystem::Grid { rows, cols } => rows as nat,
        }
    }

    /// Whether the system is a sound one for `n` acceptors: every Phase-1
    /// quorum meets every Phase-2 quorum, and both fit.
    pub open spec fn fits(self, n: nat) -> bool {
        match self {
            QuorumSystem::Majority => n >= 1,
            QuorumSystem::Flexible { q1, q2 } => 1 <= q1 <= n && 1 <= q2 <= n && q1 + q2 > n,
            QuorumSystem::Grid { rows, cols } => rows >= 1 && cols >= 1 && rows * cols == n,
        }
    }

    pub fn phase1_quorum_size(self, n: usize) -> (size: usize)
        ensures
            size == self.phase1(n as nat),
    {
        match self {
            QuorumSystem::Majority => n / 2 + 1,
            QuorumSystem::Flexible { q1, q2 } => q1,
            QuorumSystem::Grid { rows, cols } => cols,
        }
    }

    pub fn phase2_quorum_size(self, n: usize) -> (size: usize)
        ensures
            size == self.phase2(n as nat),
    {
        match self {
            QuorumSystem::Majority => n / 2 + 1,
            QuorumSystem::Flexible { q1, q2 } => q2,
            QuorumSystem::Grid { rows, cols } => rows,
        }
    }

    pub fn admits(self, n: usize) -> (admits: bool)
        ensures
            admits == self.fits(n as nat),
    {
        match self {
            QuorumSystem::Majority => n >= 1,
            QuorumSystem::Flexible { q1, q2 } => 1 <= q1 && q1 <= n && 1 <= q2 && q2 <= n && q1
                > n - q2,
            QuorumSystem::Grid { rows, cols } => rows >= 1 && cols >= 1 && match rows.checked_mul(
                cols,
            ) {
                Some(cells) => cells == n,
                None => false,
            },
        }
    }
}

/// The run's policy: how every configuration it puts in force is judged.
#[derive(Clone, Copy, Debug, PartialEq, Eq, Structural)]
pub enum QuorumPolicy {
    /// A majority in both phases.
    Majority,
    /// The tightest cross-intersecting split with `q2` accepts deciding; `q2`
    /// is clamped per configuration.
    Flexible { q2: usize },
    /// The acceptor grid drawn at the pool.
    Grid { rows: usize, cols: usize },
}

/// `rows` rows tile `n` acceptors with at least two rows and two columns.
pub open spec fn tiles(n: nat, rows: int) -> bool {
    2 <= rows < n && n as int % rows == 0 && n as int / rows >= 2
}

/// The layouts of `n` acceptors with fewer than `limit` rows, in order of rows.
pub open spec fn layouts_below(n: nat, limit: int) -> Seq<(usize, usize)>
    decreases limit,
{
    if limit <= 2 {
        seq![]
    } else {
        let before = layouts_below(n, limit - 1);
        if tiles(n, limit - 1) {
            before.push(((limit - 1) as usize, (n as int / (limit - 1)) as usize))
        } else {
            before
        }
    }
}

/// Every grid layout of `n` acceptors a run may use: `rows * cols == n` with at
/// least two rows and two columns. A single row or column is a permanent
/// partition under attrition. Empty when `n` is prime or below four.
pub fn grid_layouts(n: usize) -> (layouts: Vec<(usize, usize)>)
    ensures
        layouts@ == layouts_below(n as nat, n as int),
{
    let mut layouts: Vec<(usize, usize)> = Vec::new();
    let mut rows: usize = 2;
    while rows < n
        invariant
            rows >= 2,
            n >= 2 ==> rows <= n,
            n < 2 ==> rows == 2,
            layouts@ == layouts_below(n as nat, rows as int),
        decreases n - rows,
    {
        if n % rows == 0 && n / rows >= 2 {
            layouts.push((rows, n / rows));
        }
        rows = rows + 1;
    }
    assert(n < 2 ==> rows == 2);
    layouts
}

/// What a grid policy's list holds: exactly the tilings of `n`.
pub proof fn law_grid_layouts_tile(n: nat, limit: int, i: int)
    requires
        n <= usize::MAX,
        limit <= n,
        0 <= i < layouts_below(n, limit).len(),
    ensures
        layouts_below(n, limit)[i].0 >= 2,
        layouts_below(n, limit)[i].1 >= 2,
        layouts_below(n, limit)[i].0 < limit,
        layouts_below(n, limit)[i].0 * layouts_below(n, limit)[i].1 == n,
    decreases limit,
{
    let before = layouts_below(n, limit - 1);
    if i < before.len() {
        law_grid_layouts_tile(n, limit - 1, i);
    } else {
        let rows = limit - 1;
        let cols = n as int / rows;
        vstd::arithmetic::div_mod::lemma_fundamental_div_mod(n as int, rows);
        assert(rows * cols == n);
        assert(cols <= n) by (nonlinear_arith)
            requires
                rows * cols == n,
                rows >= 2,
                cols >= 2,
        ;
    }
}

/// Every tiling of `n` is listed.
pub proof fn law_grid_layouts_complete(n: nat, limit: int, rows: int)
    requires
        tiles(n, rows),
        rows < limit,
    ensures
        exists|i: int|
            0 <= i < layouts_below(n, limit).len() && #[trigger] layouts_below(n, limit)[i] == (
                rows as usize,
                (n as int / rows) as usize,
            ),
    decreases limit,
{
    let before = layouts_below(n, limit - 1);
    if rows < limit - 1 {
        law_grid_layouts_complete(n, limit - 1, rows);
        let i = choose|i: int|
            0 <= i < before.len() && #[trigger] before[i] == (
                rows as usize,
                (n as int / rows) as usize,
            );
        assert(layouts_below(n, limit)[i] == before[i]);
    } else {
        assert(layouts_below(n, limit)[before.len() as int] == (
            rows as usize,
            (n as int / rows) as usize,
        ));
    }
}

/// The first layout that `fits`, by index.
pub open spec fn first_layout(layouts: Seq<(usize, usize)>, fits: spec_fn((usize, usize)) -> bool) -> Option<
    (usize, usize),
>
    decreases layouts.len(),
{
    if layouts.len() == 0 {
        None
    } else {
        match first_layout(layouts.drop_last(), fits) {
            Some(layout) => Some(layout),
            None => if fits(layouts.last()) {
                Some(layouts.last())
            } else {
                None
            },
        }
    }
}

pub open spec fn exactly(rows: usize, cols: usize) -> spec_fn((usize, usize)) -> bool {
    |l: (usize, usize)| l == (rows, cols)
}

pub open spec fn with_rows(rows: usize) -> spec_fn((usize, usize)) -> bool {
    |l: (usize, usize)| l.0 == rows
}

/// The layout a grid policy lays over `n`: the drawn one where it tiles, else
/// one with the drawn row count, else the first that tiles.
pub open spec fn laid_over(n: nat, rows: usize, cols: usize) -> Option<(usize, usize)> {
    let layouts = layouts_below(n, n as int);
    match first_layout(layouts, exactly(rows, cols)) {
        Some(layout) => Some(layout),
        None => match first_layout(layouts, with_rows(rows)) {
            Some(layout) => Some(layout),
            None => if layouts.len() > 0 {
                Some(layouts[0])
            } else {
                None
            },
        },
    }
}

pub open spec fn clamped(q2: usize, n: nat) -> nat {
    let top = if n / 2 >= 1 {
        n / 2
    } else {
        1
    };
    if q2 < 1 {
        1
    } else if q2 > top {
        top
    } else {
        q2 as nat
    }
}

impl QuorumPolicy {
    /// The system a configuration of `n` acceptors runs.
    pub open spec fn system_at(self, n: nat) -> QuorumSystem {
        match self {
            QuorumPolicy::Majority => QuorumSystem::Majority,
            QuorumPolicy::Flexible { q2 } => {
                let q2 = clamped(q2, n);
                QuorumSystem::Flexible {
                    q1: if n >= q2 {
                        (n - q2 + 1) as usize
                    } else {
                        1
                    },
                    q2: q2 as usize,
                }
            },
            QuorumPolicy::Grid { rows, cols } => match laid_over(n, rows, cols) {
                Some((rows, cols)) => QuorumSystem::Grid { rows, cols },
                None => QuorumSystem::Majority,
            },
        }
    }

    /// The copies of a record a configuration of `n` may lose and stay
    /// winnable: whatever is left beside the larger quorum. None under a grid:
    /// one acceptor dead for good freezes its column.
    pub open spec fn loss_at(self, n: nat) -> nat {
        match self.system_at(n) {
            QuorumSystem::Grid { .. } => 0,
            system => {
                let larger = if system.phase1(n) >= system.phase2(n) {
                    system.phase1(n)
                } else {
                    system.phase2(n)
                };
                if n >= larger {
                    (n - larger) as nat
                } else {
                    0
                }
            },
        }
    }

    /// The clean copies a record must keep at the floor.
    pub open spec fn copies_at(self, floor: nat, pool: nat) -> nat {
        let loss = self.least_loss(
            floor,
            if pool >= floor {
                pool
            } else {
                floor
            },
        );
        if floor >= loss {
            (floor - loss) as nat
        } else {
            0
        }
    }

    /// The smallest loss any configuration of `lo..=hi` acceptors tolerates.
    pub open spec fn least_loss(self, lo: nat, hi: nat) -> nat
        decreases hi,
    {
        if hi <= lo {
            self.loss_at(lo)
        } else {
            let before = self.least_loss(lo, (hi - 1) as nat);
            if self.loss_at(hi) < before {
                self.loss_at(hi)
            } else {
                before
            }
        }
    }

    /// The quorum system a configuration of `n` acceptors runs under this
    /// policy.
    pub fn system(self, n: usize) -> (system: QuorumSystem)
        ensures
            system == self.system_at(n as nat),
    {
        match self {
            QuorumPolicy::Majority => QuorumSystem::Majority,
            QuorumPolicy::Flexible { q2 } => {
                let top = if n / 2 >= 1 {
                    n / 2
                } else {
                    1
                };
                let q2 = if q2 < 1 {
                    1
                } else if q2 > top {
                    top
                } else {
                    q2
                };
                QuorumSystem::Flexible {
                    q1: if n >= q2 {
                        n - q2 + 1
                    } else {
                        1
                    },
                    q2,
                }
            },
            QuorumPolicy::Grid { rows, cols } => {
                let layouts = grid_layouts(n);
                match find_layout(&layouts, rows, cols) {
                    Some((rows, cols)) => QuorumSystem::Grid { rows, cols },
                    None => QuorumSystem::Majority,
                }
            },
        }
    }

    /// The copies of a record a configuration of `n` may lose and stay
    /// winnable.
    pub fn tolerated_loss(self, n: usize) -> (loss: usize)
        ensures
            loss == self.loss_at(n as nat),
    {
        let system = self.system(n);
        match system {
            QuorumSystem::Grid { .. } => 0,
            _ => {
                let q1 = system.phase1_quorum_size(n);
                let q2 = system.phase2_quorum_size(n);
                let larger = if q1 >= q2 {
                    q1
                } else {
                    q2
                };
                if n >= larger {
                    n - larger
                } else {
                    0
                }
            },
        }
    }

    /// The clean live copies a record must keep at the configuration floor so
    /// that every configuration the run may put in force stays winnable.
    pub fn clean_copies(self, floor: usize, pool: usize) -> (copies: usize)
        ensures
            copies == self.copies_at(floor as nat, pool as nat),
    {
        let top = if pool >= floor {
            pool
        } else {
            floor
        };
        let mut loss = self.tolerated_loss(floor);
        let mut n = floor;
        while n < top
            invariant
                floor <= n <= top,
                loss == self.least_loss(floor as nat, n as nat),
            decreases top - n,
        {
            n = n + 1;
            let here = self.tolerated_loss(n);
            if here < loss {
                loss = here;
            }
        }
        if floor >= loss {
            floor - loss
        } else {
            0
        }
    }
}

fn find_layout(layouts: &Vec<(usize, usize)>, rows: usize, cols: usize) -> (found: Option<
    (usize, usize),
>)
    ensures
        found == match first_layout(layouts@, exactly(rows, cols)) {
            Some(layout) => Some(layout),
            None => match first_layout(layouts@, with_rows(rows)) {
                Some(layout) => Some(layout),
                None => if layouts@.len() > 0 {
                    Some(layouts@[0])
                } else {
                    None
                },
            },
        },
{
    let ghost exact = exactly(rows, cols);
    let ghost same_rows = with_rows(rows);
    let mut first: Option<(usize, usize)> = None;
    let mut second: Option<(usize, usize)> = None;
    let mut i: usize = 0;
    assert(layouts@.take(0) =~= Seq::<(usize, usize)>::empty());
    while i < layouts.len()
        invariant
            i <= layouts@.len(),
            exact == exactly(rows, cols),
            same_rows == with_rows(rows),
            first == first_layout(layouts@.take(i as int), exact),
            second == first_layout(layouts@.take(i as int), same_rows),
        decreases layouts@.len() - i,
    {
        let layout = layouts[i];
        proof {
            assert(layouts@.take(i + 1).drop_last() =~= layouts@.take(i as int));
            assert(layouts@.take(i + 1).last() == layout);
        }
        if first.is_none() && layout.0 == rows && layout.1 == cols {
            first = Some(layout);
        }
        if second.is_none() && layout.0 == rows {
            second = Some(layout);
        }
        i = i + 1;
    }
    assert(layouts@.take(i as int) =~= layouts@);
    if first.is_some() {
        first
    } else if second.is_some() {
        second
    } else if layouts.len() > 0 {
        Some(layouts[0])
    } else {
        None
    }
}

/// A flexible split cross-intersects at every size, and as tightly as it can:
/// `q1 + q2 == n + 1`, with `q2` at least one and at most half.
pub proof fn law_flexible_split_is_tight(q2: usize, n: nat)
    requires
        1 <= n <= usize::MAX,
    ensures
        ({
            let system = QuorumPolicy::Flexible { q2 }.system_at(n);
            &&& system.fits(n)
            &&& system.phase1(n) + system.phase2(n) == n + 1
            &&& 1 <= system.phase2(n)
            &&& n >= 2 ==> system.phase2(n) <= n / 2
            &&& QuorumPolicy::Flexible { q2 }.loss_at(n) == system.phase2(n) - 1
        }),
{
}

/// Every policy runs a sound system at every size.
pub proof fn law_policy_is_always_sound(policy: QuorumPolicy, n: nat)
    requires
        1 <= n <= usize::MAX,
    ensures
        policy.system_at(n).fits(n),
{
    if let QuorumPolicy::Grid { rows, cols } = policy {
        let layouts = layouts_below(n, n as int);
        lemma_first_layout_listed(layouts, exactly(rows, cols));
        lemma_first_layout_listed(layouts, with_rows(rows));
        if let Some(layout) = laid_over(n, rows, cols) {
            assert(exists|i: int| 0 <= i < layouts.len() && #[trigger] layouts[i] == layout) by {
                if first_layout(layouts, exactly(rows, cols)) is None
                    && first_layout(layouts, with_rows(rows)) is None {
                    assert(layouts[0] == layout);
                }
            }
            let i = choose|i: int| 0 <= i < layouts.len() && #[trigger] layouts[i] == layout;
            law_grid_layouts_tile(n, n as int, i);
        }
    }
}

proof fn lemma_first_layout_listed(
    layouts: Seq<(usize, usize)>,
    fits: spec_fn((usize, usize)) -> bool,
)
    ensures
        first_layout(layouts, fits) matches Some(layout) ==> exists|i: int|
            0 <= i < layouts.len() && #[trigger] layouts[i] == layout,
        first_layout(layouts, fits) matches Some(layout) ==> fits(layout),
    decreases layouts.len(),
{
    if layouts.len() > 0 {
        let front = layouts.drop_last();
        lemma_first_layout_listed(front, fits);
        if let Some(layout) = first_layout(layouts, fits) {
            if first_layout(front, fits) is Some {
                let i = choose|i: int| 0 <= i < front.len() && #[trigger] front[i] == layout;
                assert(layouts[i] == layout);
            } else {
                assert(layouts[layouts.len() - 1] == layout);
            }
        }
    }
}

/// The budget's meaning: at every configuration size the run may put in force,
/// losing what the floor's clean copies leave uncovered is tolerated.
pub proof fn law_clean_copies_cover_every_size(policy: QuorumPolicy, floor: nat, pool: nat, n: nat)
    requires
        floor <= n <= pool,
    ensures
        policy.least_loss(floor, pool) <= policy.loss_at(n),
    decreases pool,
{
    if n < pool {
        law_clean_copies_cover_every_size(policy, floor, (pool - 1) as nat, n);
    }
}

/// Under a majority or a split the tolerated loss only grows with the
/// configuration, so the floor's own requirement is the budget.
pub proof fn law_monotone_policies_budget_the_floor(policy: QuorumPolicy, floor: nat, pool: nat)
    requires
        1 <= floor <= pool <= usize::MAX,
        !(policy is Grid),
    ensures
        policy.least_loss(floor, pool) == policy.loss_at(floor),
    decreases pool,
{
    if pool > floor {
        law_monotone_policies_budget_the_floor(policy, floor, (pool - 1) as nat);
        lemma_loss_grows(policy, floor, pool);
    }
}

proof fn lemma_loss_grows(policy: QuorumPolicy, n: nat, m: nat)
    requires
        1 <= n <= m <= usize::MAX,
        !(policy is Grid),
    ensures
        policy.loss_at(n) <= policy.loss_at(m),
{
}

/// Cross-intersection: under a sound counting system, any Phase-1 quorum and
/// any Phase-2 quorum of one configuration share an acceptor.
pub proof fn law_quorums_intersect(
    system: QuorumSystem,
    members: Set<u64>,
    elected: Set<u64>,
    decided: Set<u64>,
)
    requires
        members.finite(),
        system.fits(members.len()),
        !(system is Grid),
        elected.subset_of(members),
        decided.subset_of(members),
        elected.len() >= system.phase1(members.len()),
        decided.len() >= system.phase2(members.len()),
    ensures
        exists|acceptor: u64| elected.contains(acceptor) && #[trigger] decided.contains(acceptor),
{
    lemma_len_subset(elected, members);
    lemma_len_subset(decided, members);
    if elected.disjoint(decided) {
        vstd::set_lib::lemma_set_disjoint_lens(elected, decided);
        assert((elected + decided).subset_of(members));
        lemma_len_subset(elected + decided, members);
        assert(false);
    }
    let acceptor = choose|a: u64| elected.contains(a) && decided.contains(a);
    assert(elected.contains(acceptor) && decided.contains(acceptor));
}

/// Under a grid, a full row and a full column share their crossing.
pub proof fn law_grid_row_meets_column(rows: nat, cols: nat, row: nat, col: nat)
    requires
        row < rows,
        col < cols,
    ensures
        exists|cell: int|
            0 <= cell < rows * cols && cell / cols as int == row && #[trigger] (cell % cols as int)
                == col,
{
    let cell = row * cols + col;
    vstd::arithmetic::div_mod::lemma_fundamental_div_mod_converse(
        cell as int,
        cols as int,
        row as int,
        col as int,
    );
    assert(cell < rows * cols) by (nonlinear_arith)
        requires
            row < rows,
            col < cols,
            cell == row * cols + col,
    ;
    assert(cell as int % cols as int == col);
}

} // verus!
