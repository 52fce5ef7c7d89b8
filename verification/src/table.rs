use vstd::prelude::*;

use crate::outcome::{spec_decode, spec_rev_opt, Outcome, RelationError};

verus! {

/// Whether the grid supplies an explicit code for cell `(i, j)` (0-based).
/// The canonical input is triangular, so rows may be shorter than the
/// declared symbol count.
pub open spec fn cell_in_grid(grid: Seq<Seq<u8>>, i: int, j: int) -> bool {
    0 <= i < grid.len() && 0 <= j < grid[i].len()
}

/// Every explicit grid cell carries a recognized outcome code.
pub open spec fn grid_all_valid(grid: Seq<Seq<u8>>) -> bool {
    forall|i: int, j: int| #[trigger] cell_in_grid(grid, i, j) ==> spec_decode(grid[i][j]) is Some
}

/// Cells `(i, j)` and `(j, i)` are both explicit, yet the second is not the
/// reverse of the first: the grid contradicts itself.
pub open spec fn conflict_at(grid: Seq<Seq<u8>>, i: int, j: int) -> bool {
    &&& i != j
    &&& cell_in_grid(grid, i, j)
    &&& cell_in_grid(grid, j, i)
    &&& spec_decode(grid[j][i]) != spec_rev_opt(spec_decode(grid[i][j]))
}

/// Some pair of explicit cells contradicts the derived-reverse rule.
pub open spec fn grid_conflict(grid: Seq<Seq<u8>>) -> bool {
    exists|i: int, j: int| conflict_at(grid, i, j)
}

/// The outcome a grid determines for 0-based cell `(i, j)`: the explicit
/// code when the cell is given, otherwise the reverse of the explicit code
/// for `(j, i)` when `i != j` and that cell is given, otherwise nothing.
/// Diagonal cells are never derived.
pub open spec fn table_cell(grid: Seq<Seq<u8>>, i: int, j: int) -> Option<Outcome> {
    if cell_in_grid(grid, i, j) {
        spec_decode(grid[i][j])
    } else if i != j && cell_in_grid(grid, j, i) {
        spec_rev_opt(spec_decode(grid[j][i]))
    } else {
        None
    }
}

/// An immutable mapping from every ordered pair of symbols in
/// `[1, symbol_count]` to the outcome of the first against the second,
/// stored densely in row-major order; unpopulated pairs hold nothing.
pub struct RelationTable {
    symbol_count: usize,
    cells: Vec<Option<Outcome>>,
}

proof fn lemma_index_bounds(n: int, i: int, j: int)
    requires
        0 <= i < n,
        0 <= j < n,
    ensures
        0 <= i * n + j < n * n,
{
    assert(0 <= i * n + j < n * n) by (nonlinear_arith)
        requires
            0 <= i < n,
            0 <= j < n,
    ;
}

proof fn lemma_index_injective(n: int, i1: int, j1: int, i2: int, j2: int)
    requires
        0 <= i1 < n,
        0 <= j1 < n,
        0 <= i2 < n,
        0 <= j2 < n,
        i1 * n + j1 == i2 * n + j2,
    ensures
        i1 == i2 && j1 == j2,
{
    assert(i1 == i2 && j1 == j2) by (nonlinear_arith)
        requires
            0 <= i1 < n,
            0 <= j1 < n,
            0 <= i2 < n,
            0 <= j2 < n,
            i1 * n + j1 == i2 * n + j2,
    ;
}

/// The view of a byte grid is the sequence of its rows' byte sequences.
proof fn lemma_grid_view(grid: &Vec<Vec<u8>>)
    ensures
        grid.deep_view().len() == grid@.len(),
        forall|i: int| 0 <= i < grid@.len() ==> #[trigger] grid.deep_view()[i] == grid@[i]@,
{
    assert forall|i: int| 0 <= i < grid@.len() implies #[trigger] grid.deep_view()[i]
        == grid@[i]@ by {
        assert(grid.deep_view()[i] =~= grid@[i]@);
    }
}

/// Decode a byte already known to carry a recognized code.
fn decode_valid(code: u8) -> (o: Outcome)
    requires
        spec_decode(code) is Some,
    ensures
        Some(o) == spec_decode(code),
{
    match Outcome::decode(code) {
        Ok(o) => o,
        Err(_) => Outcome::Draw,
    }
}

/// In a valid, conflict-free grid, the determined outcomes for `(i, j)` and
/// `(j, i)` with `i != j` are always each other's reverses.
proof fn lemma_table_cell_asymmetry(grid: Seq<Seq<u8>>, i: int, j: int)
    requires
        grid_all_valid(grid),
        !grid_conflict(grid),
        i != j,
    ensures
        table_cell(grid, i, j) == spec_rev_opt(table_cell(grid, j, i)),
{
    if cell_in_grid(grid, i, j) && cell_in_grid(grid, j, i) {
        assert(!conflict_at(grid, i, j));
        assert(spec_decode(grid[i][j]) is Some);
        assert(spec_decode(grid[j][i]) is Some);
    } else if cell_in_grid(grid, i, j) {
        assert(spec_decode(grid[i][j]) is Some);
    } else if cell_in_grid(grid, j, i) {
        assert(spec_decode(grid[j][i]) is Some);
    }
}

impl RelationTable {
    /// The declared number of symbols.
    pub closed spec fn spec_symbol_count(self) -> int {
        self.symbol_count as int
    }

    /// The outcome the table stores for the ordered pair `(a, b)` of
    /// 1-based symbol identifiers; nothing when the pair is out of range or
    /// was never populated.
    pub closed spec fn spec_cell(self, a: int, b: int) -> Option<Outcome> {
        if 1 <= a <= self.symbol_count && 1 <= b <= self.symbol_count {
            self.cells@[(a - 1) * (self.symbol_count as int) + (b - 1)]
        } else {
            None
        }
    }

    /// Well-formedness: the dense store has one slot per ordered pair, and
    /// off-diagonal entries always pair up with their reverses.
    pub closed spec fn wf(self) -> bool {
        &&& self.symbol_count * self.symbol_count <= usize::MAX
        &&& self.cells@.len() == self.symbol_count * self.symbol_count
        &&& forall|a: int, b: int|
            1 <= a <= self.symbol_count && 1 <= b <= self.symbol_count && a != b
                ==> #[trigger] self.spec_cell(a, b) == spec_rev_opt(self.spec_cell(b, a))
    }

    /// Every ordered pair in range resolves to an outcome.
    pub open spec fn total(self) -> bool {
        forall|a: int, b: int|
            1 <= a <= self.spec_symbol_count() && 1 <= b <= self.spec_symbol_count()
                ==> (#[trigger] self.spec_cell(a, b)) is Some
    }

    /// The table holds, for every in-range ordered pair, exactly what the
    /// grid determines for it.
    pub open spec fn built_from(self, grid: Seq<Seq<u8>>, symbol_count: int) -> bool {
        &&& self.spec_symbol_count() == symbol_count
        &&& forall|a: int, b: int|
            1 <= a <= symbol_count && 1 <= b <= symbol_count
                ==> #[trigger] self.spec_cell(a, b) == table_cell(grid, a - 1, b - 1)
    }

    /// Build the table for `symbol_count` symbols from a square or
    /// triangular grid of outcome codes, where `grid[i][j]` is the outcome
    /// of symbol `i + 1` against symbol `j + 1`. Explicit cells are taken as
    /// written; each off-diagonal cell whose mirror is not explicit receives
    /// the mirror's reverse; diagonal cells are never derived. A byte
    /// outside the outcome alphabet fails with `InvalidOutcomeCode`; an
    /// explicit pair of mirror cells that are not each other's reverse
    /// fails with `InconsistentRelation`.
    pub fn build(grid: &Vec<Vec<u8>>, symbol_count: usize) -> (r: Result<
        RelationTable,
        RelationError,
    >)
        requires
            grid@.len() <= symbol_count,
            forall|i: int| 0 <= i < grid@.len() ==> (#[trigger] grid@[i])@.len() <= symbol_count,
            symbol_count * symbol_count <= usize::MAX,
        ensures
            match r {
                Ok(t) => {
                    &&& grid_all_valid(grid.deep_view())
                    &&& !grid_conflict(grid.deep_view())
                    &&& t.wf()
                    &&& t.built_from(grid.deep_view(), symbol_count as int)
                },
                Err(e) => {
                    &&& e != RelationError::MissingRelation
                    &&& (e == RelationError::InvalidOutcomeCode <==> !grid_all_valid(
                        grid.deep_view(),
                    ))
                    &&& (e == RelationError::InconsistentRelation ==> grid_conflict(
                        grid.deep_view(),
                    ))
                },
            },
    {
        let ghost gv: Seq<Seq<u8>> = grid.deep_view();
        proof {
            lemma_grid_view(grid);
        }
        // First pass: every explicit cell must carry a recognized code.
        let mut i: usize = 0;
        while i < grid.len()
            invariant
                i <= grid@.len(),
                gv == grid.deep_view(),
                gv.len() == grid@.len(),
                forall|p: int| 0 <= p < grid@.len() ==> #[trigger] gv[p] == grid@[p]@,
                forall|p: int, q: int|
                    #[trigger] cell_in_grid(gv, p, q) && p < i ==> spec_decode(gv[p][q]) is Some,
            decreases grid@.len() - i,
        {
            let mut j: usize = 0;
            while j < grid[i].len()
                invariant
                    i < grid@.len(),
                    j <= grid@[i as int]@.len(),
                    gv == grid.deep_view(),
                    gv.len() == grid@.len(),
                    forall|p: int| 0 <= p < grid@.len() ==> #[trigger] gv[p] == grid@[p]@,
                    forall|p: int, q: int|
                        #[trigger] cell_in_grid(gv, p, q) && (p < i || (p == i && q < j))
                            ==> spec_decode(gv[p][q]) is Some,
                decreases grid@[i as int]@.len() - j,
            {
                match Outcome::decode(grid[i][j]) {
                    Ok(_) => {},
                    Err(_) => {
                        proof {
                            assert(cell_in_grid(gv, i as int, j as int));
                            assert(!grid_all_valid(gv));
                        }
                        return Err(RelationError::InvalidOutcomeCode);
                    },
                }
                j = j + 1;
            }
            i = i + 1;
        }
        proof {
            assert(grid_all_valid(gv));
        }
        // Second pass: explicit mirror cells must be each other's reverse.
        let mut i: usize = 0;
        while i < grid.len()
            invariant
                i <= grid@.len(),
                gv == grid.deep_view(),
                gv.len() == grid@.len(),
                forall|p: int| 0 <= p < grid@.len() ==> #[trigger] gv[p] == grid@[p]@,
                grid_all_valid(gv),
                forall|p: int, q: int| #[trigger] conflict_at(gv, p, q) ==> !(p < i),
            decreases grid@.len() - i,
        {
            let mut j: usize = 0;
            while j < grid[i].len()
                invariant
                    i < grid@.len(),
                    j <= grid@[i as int]@.len(),
                    gv == grid.deep_view(),
                    gv.len() == grid@.len(),
                    forall|p: int| 0 <= p < grid@.len() ==> #[trigger] gv[p] == grid@[p]@,
                    grid_all_valid(gv),
                    forall|p: int, q: int|
                        #[trigger] conflict_at(gv, p, q) ==> !(p < i || (p == i && q < j)),
                decreases grid@[i as int]@.len() - j,
            {
                if i != j && j < grid.len() && i < grid[j].len() {
                    proof {
                        assert(cell_in_grid(gv, i as int, j as int));
                        assert(cell_in_grid(gv, j as int, i as int));
                    }
                    let o1 = decode_valid(grid[i][j]);
                    let o2 = decode_valid(grid[j][i]);
                    if o2 != o1.rev() {
                        proof {
                            assert(conflict_at(gv, i as int, j as int));
                            assert(grid_conflict(gv));
                        }
                        return Err(RelationError::InconsistentRelation);
                    }
                    proof {
                        assert(!conflict_at(gv, i as int, j as int));
                    }
                } else {
                    proof {
                        assert(!conflict_at(gv, i as int, j as int));
                    }
                }
                j = j + 1;
            }
            i = i + 1;
        }
        proof {
            assert forall|p: int, q: int| !(#[trigger] conflict_at(gv, p, q)) by {
                if conflict_at(gv, p, q) {
                    assert(cell_in_grid(gv, p, q));
                }
            }
            assert(!grid_conflict(gv));
        }
        // Third pass: determine each cell of the dense store in row-major
        // order.
        let n = symbol_count;
        let mut cells: Vec<Option<Outcome>> = Vec::new();
        let mut p: usize = 0;
        while p < n
            invariant
                p <= n,
                gv == grid.deep_view(),
                gv.len() == grid@.len(),
                forall|r: int| 0 <= r < grid@.len() ==> #[trigger] gv[r] == grid@[r]@,
                grid_all_valid(gv),
                cells@.len() == p * n,
                forall|x: int, y: int|
                    0 <= x < n && 0 <= y < n && x * n + y < cells@.len() ==> cells@[x * n + y]
                        == #[trigger] table_cell(gv, x, y),
            decreases n - p,
        {
            let mut q: usize = 0;
            while q < n
                invariant
                    p < n,
                    q <= n,
                    gv == grid.deep_view(),
                    gv.len() == grid@.len(),
                    forall|r: int| 0 <= r < grid@.len() ==> #[trigger] gv[r] == grid@[r]@,
                    grid_all_valid(gv),
                    cells@.len() == p * n + q,
                    forall|x: int, y: int|
                        0 <= x < n && 0 <= y < n && x * n + y < cells@.len() ==> cells@[x * n + y]
                            == #[trigger] table_cell(gv, x, y),
                decreases n - q,
            {
                let v: Option<Outcome>;
                if p < grid.len() && q < grid[p].len() {
                    proof {
                        assert(cell_in_grid(gv, p as int, q as int));
                    }
                    v = Some(decode_valid(grid[p][q]));
                } else if p != q && q < grid.len() && p < grid[q].len() {
                    proof {
                        assert(cell_in_grid(gv, q as int, p as int));
                    }
                    v = Some(decode_valid(grid[q][p]).rev());
                } else {
                    v = None;
                }
                proof {
                    assert(v == table_cell(gv, p as int, q as int));
                    lemma_index_bounds(n as int, p as int, q as int);
                }
                cells.push(v);
                proof {
                    assert forall|x: int, y: int|
                        0 <= x < n && 0 <= y < n && x * n + y < cells@.len() implies cells@[x * n
                        + y] == #[trigger] table_cell(gv, x, y) by {
                        lemma_index_bounds(n as int, x, y);
                        if x * n + y == p * n + q {
                            lemma_index_injective(n as int, x, y, p as int, q as int);
                        }
                    }
                }
                q = q + 1;
            }
            proof {
                assert((p as int + 1) * (n as int) == p as int * (n as int) + n as int)
                    by (nonlinear_arith);
            }
            p = p + 1;
        }
        let t = RelationTable { symbol_count, cells };
        proof {
            assert forall|a: int, b: int|
                1 <= a <= symbol_count && 1 <= b <= symbol_count implies #[trigger] t.spec_cell(
                a,
                b,
            ) == table_cell(gv, a - 1, b - 1) by {
                lemma_index_bounds(symbol_count as int, a - 1, b - 1);
            }
            assert(t.built_from(gv, symbol_count as int));
            assert forall|a: int, b: int|
                1 <= a <= symbol_count && 1 <= b <= symbol_count && a != b implies #[trigger] t
                .spec_cell(a, b) == spec_rev_opt(t.spec_cell(b, a)) by {
                lemma_index_bounds(symbol_count as int, a - 1, b - 1);
                lemma_index_bounds(symbol_count as int, b - 1, a - 1);
                lemma_table_cell_asymmetry(gv, a - 1, b - 1);
            }
            assert(t.wf());
        }
        Ok(t)
    }

    /// The outcome for the ordered pair `(a, b)`, or `MissingRelation` when
    /// `(a, b)` lies outside the symbol range or was never populated.
    pub fn lookup(&self, a: usize, b: usize) -> (r: Result<Outcome, RelationError>)
        requires
            self.wf(),
        ensures
            match r {
                Ok(o) => self.spec_cell(a as int, b as int) == Some(o),
                Err(e) => {
                    &&& e == RelationError::MissingRelation
                    &&& self.spec_cell(a as int, b as int) is None
                },
            },
    {
        if 1 <= a && a <= self.symbol_count && 1 <= b && b <= self.symbol_count {
            proof {
                lemma_index_bounds(
                    self.symbol_count as int,
                    a as int - 1,
                    b as int - 1,
                );
            }
            let idx: usize = (a - 1) * self.symbol_count + (b - 1);
            match self.cells[idx] {
                Some(o) => Ok(o),
                None => Err(RelationError::MissingRelation),
            }
        } else {
            Err(RelationError::MissingRelation)
        }
    }

    /// Whether every ordered pair of in-range symbols resolves to an
    /// outcome.
    pub fn is_total(&self) -> (b: bool)
        requires
            self.wf(),
        ensures
            b == self.total(),
    {
        let n = self.symbol_count;
        let mut a: usize = 0;
        while a < n
            invariant
                a <= n,
                n == self.symbol_count,
                self.wf(),
                forall|x: int, y: int|
                    1 <= x <= a && 1 <= y <= n ==> (#[trigger] self.spec_cell(x, y)) is Some,
            decreases n - a,
        {
            let mut b_: usize = 0;
            while b_ < n
                invariant
                    a < n,
                    b_ <= n,
                    n == self.symbol_count,
                    self.wf(),
                    forall|x: int, y: int|
                        1 <= x <= a && 1 <= y <= n ==> (#[trigger] self.spec_cell(x, y)) is Some,
                    forall|y: int|
                        1 <= y <= b_ ==> (#[trigger] self.spec_cell(a + 1, y)) is Some,
                decreases n - b_,
            {
                match self.lookup(a + 1, b_ + 1) {
                    Ok(_) => {},
                    Err(_) => {
                        return false;
                    },
                }
                b_ = b_ + 1;
            }
            a = a + 1;
        }
        true
    }

    /// The declared number of symbols.
    pub fn symbol_count(&self) -> (n: usize)
        ensures
            n as int == self.spec_symbol_count(),
    {
        self.symbol_count
    }
}

/// Asymmetry: in a well-formed table, the entry for `(i, j)` with `i != j`
/// is always the reverse of the entry for `(j, i)` — present exactly when
/// the other is present, and then carrying the reversed outcome.
pub proof fn lemma_asymmetry(t: RelationTable, i: int, j: int)
    requires
        t.wf(),
        1 <= i <= t.spec_symbol_count(),
        1 <= j <= t.spec_symbol_count(),
        i != j,
    ensures
        t.spec_cell(i, j) == spec_rev_opt(t.spec_cell(j, i)),
        forall|o: Outcome| t.spec_cell(i, j) == Some(o) <==> t.spec_cell(j, i) == Some(
            #[trigger] o.spec_rev(),
        ),
{
    assert(t.spec_cell(i, j) == spec_rev_opt(t.spec_cell(j, i)));
    assert forall|o: Outcome|
        t.spec_cell(i, j) == Some(o) <==> t.spec_cell(j, i) == Some(
            #[trigger] o.spec_rev(),
        ) by {
        crate::outcome::lemma_rev_involution(o);
    }
}

/// Self-relations are preserved: a table built from a grid answers `(a, a)`
/// with exactly the grid's own diagonal cell, or with nothing when that
/// cell was not supplied — a diagonal entry is never derived.
pub proof fn lemma_self_relation(t: RelationTable, grid: Seq<Seq<u8>>, symbol_count: int, a: int)
    requires
        t.built_from(grid, symbol_count),
        1 <= a <= symbol_count,
    ensures
        t.spec_cell(a, a) == (if cell_in_grid(grid, a - 1, a - 1) {
            spec_decode(grid[a - 1][a - 1])
        } else {
            Option::<Outcome>::None
        }),
{
    assert(t.spec_cell(a, a) == table_cell(grid, a - 1, a - 1));
}

/// Whether the grid explicitly covers the whole lower triangle, diagonal
/// included: row `i` supplies at least the first `i + 1` codes.
pub open spec fn grid_covers(grid: Seq<Seq<u8>>, symbol_count: int) -> bool {
    &&& symbol_count <= grid.len()
    &&& forall|i: int| 0 <= i < symbol_count ==> i < #[trigger] grid[i].len()
}

/// Totality: a table built from a valid grid that covers the lower
/// triangle answers every in-range ordered pair.
pub proof fn lemma_total(t: RelationTable, grid: Seq<Seq<u8>>, symbol_count: int)
    requires
        t.built_from(grid, symbol_count),
        grid_all_valid(grid),
        grid_covers(grid, symbol_count),
    ensures
        t.total(),
{
    assert forall|a: int, b: int|
        1 <= a <= symbol_count && 1 <= b <= symbol_count implies (#[trigger] t.spec_cell(
        a,
        b,
    )) is Some by {
        let i = a - 1;
        let j = b - 1;
        if j <= i {
            assert(cell_in_grid(grid, i, j));
        } else {
            assert(cell_in_grid(grid, j, i));
        }
    }
}

} // verus!
