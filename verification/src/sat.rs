//! The satisfiability solver: the puzzle is written as a formula in
//! conjunctive normal form, a satisfiability engine looks for a model, and
//! the model is read back as a board.

use crate::board::{Cell, Colour, Endpoints, Grid, Point};
use varisat::ExtendFormula;
use vstd::prelude::*;

verus! {

/// The largest number of variables that the engine takes.
pub const MAX_VARIABLES: usize = 268435456;

/// The formula type of the engine, held as it is.
#[verifier::external_type_specification]
#[verifier::external_body]
pub struct ExCnfFormula(varisat::CnfFormula);

/// The clauses that a formula of the engine holds, in the order in which they
/// were added, each literal as a non-zero integer: a variable by its number,
/// its negation by the negative number.
pub uninterp spec fn formula_clauses(formula: varisat::CnfFormula) -> Seq<Seq<int>>;

/// What the engine answers on a list of clauses: whether it found them
/// satisfiable, and the model that it holds afterwards, if any, as a list of
/// literals.
pub uninterp spec fn sat_outcome(clauses: Seq<Seq<int>>) -> (bool, Option<Seq<int>>);

/// The literals of a clause as integers.
pub open spec fn literals_of(clause: Seq<isize>) -> Seq<int> {
    clause.map_values(|l: isize| l as int)
}

/// Whether `model` makes some literal of `clause` true.
pub open spec fn satisfied(clause: Seq<int>, model: Seq<int>) -> bool {
    exists|i: int| 0 <= i < clause.len() && model.contains(#[trigger] clause[i])
}

/// Whether `model` makes every clause of `clauses` true.
pub open spec fn satisfies(clauses: Seq<Seq<int>>, model: Seq<int>) -> bool {
    forall|k: int| 0 <= k < clauses.len() ==> satisfied(#[trigger] clauses[k], model)
}

/// Whether `model` holds no literal together with its negation.
pub open spec fn consistent(model: Seq<int>) -> bool {
    forall|l: int| !(#[trigger] model.contains(l) && model.contains(-l))
}

/// Whether every literal of `clause` is one that the engine takes: not zero,
/// and of a variable numbered no higher than `MAX_VARIABLES`.
pub open spec fn well_formed(clause: Seq<isize>) -> bool {
    forall|i: int|
        0 <= i < clause.len() ==> (#[trigger] clause[i]) != 0 && -MAX_VARIABLES <= clause[i]
            <= MAX_VARIABLES
}

/// `varisat::CnfFormula::new`: a formula without clauses.
#[verifier::external_body]
fn new_formula() -> (formula: varisat::CnfFormula)
    ensures
        formula_clauses(formula) == Seq::<Seq<int>>::empty(),
{
    varisat::CnfFormula::new()
}

/// `varisat::ExtendFormula::add_clause` on a `CnfFormula`, with each literal
/// made by `varisat::Lit::from_dimacs`: the clause is appended to the clauses
/// of the formula.
#[verifier::external_body]
fn add_clause(formula: &mut varisat::CnfFormula, clause: &Vec<isize>)
    requires
        well_formed(clause@),
    ensures
        formula_clauses(*final(formula)) == formula_clauses(*old(formula)).push(
            literals_of(clause@),
        ),
{
    let lits: Vec<varisat::Lit> = clause.iter().map(|&l| varisat::Lit::from_dimacs(l)).collect();
    formula.add_clause(&lits);
}

/// A fresh `varisat::Solver` is given the formula by `add_formula` and asked
/// by `solve`; an error of the engine counts as "not satisfiable". Then
/// `model` is read, each literal by `varisat::Lit::to_dimacs`. The answer
/// depends on the clauses alone. A model names each variable at most once
/// and makes every clause of the formula true.
#[verifier::external_body]
fn run_solver(formula: &varisat::CnfFormula) -> (r: (bool, Option<Vec<isize>>))
    ensures
        (r.0, match r.1 {
            Some(model) => Some(literals_of(model@)),
            None => None,
        }) == sat_outcome(formula_clauses(*formula)),
        match r.1 {
            Some(model) => consistent(literals_of(model@)) && satisfies(
                formula_clauses(*formula),
                literals_of(model@),
            ),
            None => true,
        },
{
    let mut solver = varisat::Solver::new();
    solver.add_formula(formula);
    let sat = solver.solve().unwrap_or(false);
    let model = solver.model().map(|m| m.iter().map(|l| l.to_dimacs()).collect());
    (sat, model)
}

/// The lists that `parts` gives for the numbers below `n`, one after another.
pub open spec fn concat_upto(parts: spec_fn(int) -> Seq<Seq<int>>, n: int) -> Seq<Seq<int>>
    decreases n,
{
    if n <= 0 {
        Seq::empty()
    } else {
        concat_upto(parts, n - 1) + parts(n - 1)
    }
}

/// A model of two lists of clauses, one after the other, is a model of each.
pub proof fn lemma_satisfies_both(first: Seq<Seq<int>>, second: Seq<Seq<int>>, model: Seq<int>)
    ensures
        satisfies(first + second, model) == (satisfies(first, model) && satisfies(second, model)),
{
    let both = first + second;
    if satisfies(both, model) {
        assert forall|k: int| 0 <= k < first.len() implies satisfied(#[trigger] first[k], model) by {
            assert(both[k] == first[k]);
        }
        assert forall|k: int| 0 <= k < second.len() implies satisfied(
            #[trigger] second[k],
            model,
        ) by {
            assert(both[first.len() + k] == second[k]);
        }
    }
    if satisfies(first, model) && satisfies(second, model) {
        assert forall|k: int| 0 <= k < both.len() implies satisfied(#[trigger] both[k], model) by {
            if k < first.len() {
                assert(both[k] == first[k]);
            } else {
                assert(both[k] == second[k - first.len()]);
            }
        }
    }
}

/// A model of lists put one after another is a model of each of them.
pub proof fn lemma_satisfies_part(
    parts: spec_fn(int) -> Seq<Seq<int>>,
    n: int,
    k: int,
    model: Seq<int>,
)
    requires
        0 <= k < n,
        satisfies(concat_upto(parts, n), model),
    ensures
        satisfies(parts(k), model),
    decreases n,
{
    lemma_satisfies_both(concat_upto(parts, n - 1), parts(n - 1), model);
    if k < n - 1 {
        lemma_satisfies_part(parts, n - 1, k, model);
    }
}

/// The clauses that forbid two of `lits` to be true together, among them
/// those of the pairs `(a, b)` with `a < b` and either `a < i`, or `a == i`
/// and `b < j`.
pub open spec fn pair_clauses(lits: Seq<int>, i: int, j: int) -> Seq<Seq<int>>
    decreases i, j,
{
    if i < 0 || j < 0 {
        Seq::empty()
    } else if j > i + 1 {
        pair_clauses(lits, i, j - 1).push(seq![-lits[i], -lits[j - 1]])
    } else if i > 0 {
        pair_clauses(lits, i - 1, lits.len() as int)
    } else {
        Seq::empty()
    }
}

/// The clauses that say that exactly one of `lits` is true: one clause that
/// asks for at least one, and one clause for every two of them that forbids
/// both.
pub open spec fn exactly_one(lits: Seq<int>) -> Seq<Seq<int>> {
    seq![lits] + pair_clauses(lits, lits.len() as int, 0)
}

/// A clause of `pair_clauses` for every two positions in range.
proof fn lemma_pair_clause_present(lits: Seq<int>, i: int, j: int, a: int, b: int)
    requires
        0 <= a < b < lits.len(),
        0 <= i <= lits.len(),
        0 <= j <= lits.len(),
        a < i || (a == i && b < j),
    ensures
        pair_clauses(lits, i, j).contains(seq![-lits[a], -lits[b]]),
    decreases i, j,
{
    if j > i + 1 {
        let before = pair_clauses(lits, i, j - 1);
        let all = before.push(seq![-lits[i], -lits[j - 1]]);
        if a == i && b == j - 1 {
            assert(all[before.len() as int] == seq![-lits[a], -lits[b]]);
        } else {
            lemma_pair_clause_present(lits, i, j - 1, a, b);
            let k = choose|k: int| 0 <= k < before.len() && before[k] == seq![-lits[a], -lits[b]];
            assert(all[k] == seq![-lits[a], -lits[b]]);
        }
    } else if i > 0 {
        lemma_pair_clause_present(lits, i - 1, lits.len() as int, a, b);
    }
}

/// Under a model of `exactly_one(lits)` one of `lits` is true, and no two at
/// different positions are.
pub proof fn lemma_exactly_one(lits: Seq<int>, model: Seq<int>)
    requires
        consistent(model),
        satisfies(exactly_one(lits), model),
    ensures
        exists|i: int| 0 <= i < lits.len() && model.contains(#[trigger] lits[i]),
        forall|a: int, b: int|
            0 <= a < b < lits.len() ==> !(model.contains(#[trigger] lits[a]) && model.contains(
                #[trigger] lits[b],
            )),
{
    let pairs = pair_clauses(lits, lits.len() as int, 0);
    lemma_satisfies_both(seq![lits], pairs, model);
    assert(satisfied(seq![lits][0], model));
    assert forall|a: int, b: int| 0 <= a < b < lits.len() implies !(model.contains(
        #[trigger] lits[a],
    ) && model.contains(#[trigger] lits[b])) by {
        lemma_pair_clause_present(lits, lits.len() as int, 0, a, b);
        let clause = seq![-lits[a], -lits[b]];
        let k = choose|k: int| 0 <= k < pairs.len() && pairs[k] == clause;
        assert(satisfied(pairs[k], model));
        let i = choose|i: int| 0 <= i < clause.len() && model.contains(#[trigger] clause[i]);
        if i == 0 {
            assert(model.contains(-lits[a]));
        } else {
            assert(model.contains(-lits[b]));
        }
    }
}

/// Adds to `formula` the clauses that say that exactly one of `lits` is
/// true.
fn add_exactly_one(formula: &mut varisat::CnfFormula, lits: &Vec<isize>)
    requires
        well_formed(lits@),
    ensures
        formula_clauses(*final(formula)) == formula_clauses(*old(formula)) + exactly_one(
            literals_of(lits@),
        ),
{
    let ghost base = formula_clauses(*formula);
    let ghost ints = literals_of(lits@);
    add_clause(formula, lits);
    assert(formula_clauses(*formula) =~= base + seq![ints]);
    let mut i: usize = 0;
    while i < lits.len()
        invariant
            i <= lits.len(),
            well_formed(lits@),
            ints == literals_of(lits@),
            formula_clauses(*formula) == base + seq![ints] + pair_clauses(ints, i as int, 0),
        decreases lits.len() - i,
    {
        let mut j: usize = i + 1;
        assert(pair_clauses(ints, i as int, i + 1) == pair_clauses(ints, i as int, 0));
        while j < lits.len()
            invariant
                i < j <= lits.len(),
                well_formed(lits@),
                ints == literals_of(lits@),
                formula_clauses(*formula) == base + seq![ints] + pair_clauses(
                    ints,
                    i as int,
                    j as int,
                ),
            decreases lits.len() - j,
        {
            let mut clause: Vec<isize> = Vec::new();
            clause.push(-lits[i]);
            clause.push(-lits[j]);
            proof {
                assert(literals_of(clause@) =~= seq![-ints[i as int], -ints[j as int]]);
            }
            add_clause(formula, &clause);
            proof {
                assert(formula_clauses(*formula) =~= base + seq![ints] + pair_clauses(
                    ints,
                    i as int,
                    j + 1,
                ));
            }
            j += 1;
        }
        i += 1;
    }
}

/// How the variables of the formula are numbered: one variable for every
/// square and colour, then six for every square, one for each way in which
/// a path may pass through it.
#[derive(Clone, Copy, Debug)]
pub struct Layout {
    pub width: usize,
    pub height: usize,
    pub colours: usize,
}

impl Layout {
    /// The number of squares.
    pub open spec fn cells(&self) -> int {
        self.width * self.height
    }

    /// The number of variables.
    pub open spec fn variables(&self) -> int {
        self.cells() * (self.colours + 6)
    }

    /// Whether the engine takes that many variables.
    pub open spec fn fits(&self) -> bool {
        self.variables() <= MAX_VARIABLES
    }

    /// Whether `p` is a square of the board.
    pub open spec fn holds(&self, p: Point) -> bool {
        p.x < self.width && p.y < self.height
    }

    /// The place of `p` when the squares are counted row by row.
    pub open spec fn cell_index(&self, p: Point) -> int {
        p.y * self.width + p.x
    }

    /// The variable that says that `p` has the colour at position `i`.
    pub open spec fn colour_var(&self, p: Point, i: int) -> int {
        self.cell_index(p) * self.colours + i + 1
    }

    /// The variable that says that a path passes through `p` in the way `t`.
    pub open spec fn turn_var(&self, p: Point, t: int) -> int {
        self.cells() * self.colours + self.cell_index(p) * 6 + t + 1
    }

    /// The variables of a square on the board are in range.
    pub proof fn lemma_numbering(&self, p: Point)
        requires
            self.fits(),
            self.holds(p),
        ensures
            0 <= self.cell_index(p) < self.cells(),
            forall|i: int| 0 <= i < self.colours ==> 1 <= #[trigger] self.colour_var(p, i)
                <= self.cells() * self.colours,
            forall|t: int| 0 <= t < 6 ==> self.cells() * self.colours < #[trigger] self.turn_var(p, t)
                <= self.variables(),
            0 <= self.cells() * self.colours <= self.variables() <= MAX_VARIABLES,
            0 <= p.y * self.width <= self.cells() <= MAX_VARIABLES,
            0 <= self.cell_index(p) * self.colours,
            0 <= self.cell_index(p) * 6,
    {
        let w = self.width as int;
        let h = self.height as int;
        let n = self.colours as int;
        let c = p.y * w + p.x;
        assert(p.y * w + w <= w * h) by (nonlinear_arith)
            requires
                0 <= p.y < h,
                0 <= w,
        ;
        assert(0 <= p.y * w) by (nonlinear_arith)
            requires
                0 <= p.y,
                0 <= w,
        ;
        assert(c * n + n <= (w * h) * n && 0 <= c * n) by (nonlinear_arith)
            requires
                0 <= c < w * h,
                0 <= n,
        ;
        assert(c * 6 + 6 <= (w * h) * 6) by (nonlinear_arith)
            requires
                0 <= c < w * h,
        ;
        assert((w * h) * (n + 6) == (w * h) * n + (w * h) * 6) by (nonlinear_arith);
        assert(0 <= (w * h) * n) by (nonlinear_arith)
            requires
                0 <= w * h,
                0 <= n,
        ;
        assert(w * h <= (w * h) * (n + 6)) by (nonlinear_arith)
            requires
                0 <= w * h,
                0 <= n,
        ;
    }

    /// The layout of a board with `colours` colours, if the engine takes as
    /// many variables as it needs.
    pub fn plan(width: usize, height: usize, colours: usize) -> (r: Option<Layout>)
        ensures
            match r {
                Some(layout) => layout == (Layout { width, height, colours }) && layout.fits(),
                None => !(Layout { width, height, colours }).fits(),
            },
    {
        let layout = Layout { width, height, colours };
        if colours > MAX_VARIABLES {
            proof {
                if width * height > 0 {
                    assert(layout.variables() > MAX_VARIABLES) by (nonlinear_arith)
                        requires
                            layout.variables() == (width * height) * (colours + 6),
                            width * height >= 1,
                            colours > MAX_VARIABLES,
                    ;
                }
            }
            if width == 0 || height == 0 {
                assert(width * height == 0) by (nonlinear_arith)
                    requires
                        width == 0 || height == 0,
                ;
                assert(layout.variables() == 0) by (nonlinear_arith)
                    requires
                        layout.variables() == (width * height) * (colours + 6),
                        width * height == 0,
                ;
                return Some(layout);
            }
            assert(width * height > 0) by (nonlinear_arith)
                requires
                    width > 0,
                    height > 0,
            ;
            return None;
        }
        match width.checked_mul(height) {
            Some(cells) => match cells.checked_mul(colours + 6) {
                Some(total) => {
                    if total <= MAX_VARIABLES {
                        Some(layout)
                    } else {
                        None
                    }
                },
                None => None,
            },
            None => {
                proof {
                    assert(layout.variables() >= width * height) by (nonlinear_arith)
                        requires
                            layout.variables() == (width * height) * (colours + 6),
                            width * height >= 0,
                            colours >= 0,
                    ;
                }
                None
            },
        }
    }

    /// The literal of `colour_var(p, i)`.
    pub fn colour_lit(&self, p: Point, i: usize) -> (lit: isize)
        requires
            self.fits(),
            self.holds(p),
            i < self.colours,
        ensures
            lit == self.colour_var(p, i as int),
            1 <= lit <= MAX_VARIABLES,
    {
        proof {
            self.lemma_numbering(p);
            assert(1 <= self.colour_var(p, i as int) <= self.cells() * self.colours);
            let c = self.cell_index(p);
            let n = self.colours as int;
            assert(0 <= c * n) by (nonlinear_arith)
                requires
                    0 <= c,
                    0 <= n,
            ;
        }
        let cell: usize = p.y * self.width + p.x;
        let var: usize = cell * self.colours + i + 1;
        var as isize
    }

    /// The literal of `turn_var(p, t)`.
    pub fn turn_lit(&self, p: Point, t: usize) -> (lit: isize)
        requires
            self.fits(),
            self.holds(p),
            t < 6,
        ensures
            lit == self.turn_var(p, t as int),
            1 <= lit <= MAX_VARIABLES,
    {
        proof {
            self.lemma_numbering(p);
            assert(self.cells() * self.colours < self.turn_var(p, t as int) <= self.variables());
            assert(self.width * self.height == self.cells());
        }
        let cells: usize = self.width * self.height;
        let base: usize = cells * self.colours;
        let cell: usize = p.y * self.width + p.x;
        let var: usize = base + cell * 6 + t + 1;
        var as isize
    }
}

impl Layout {
    /// The square in column `x` of row `y`.
    pub open spec fn point(x: int, y: int) -> Point {
        Point { x: x as usize, y: y as usize }
    }

    /// What `per_cell` gives for the squares of row `y`, by column.
    pub open spec fn along_row(
        per_cell: spec_fn(Point) -> Seq<Seq<int>>,
        y: int,
    ) -> spec_fn(int) -> Seq<Seq<int>> {
        |x: int| per_cell(Layout::point(x, y))
    }

    /// What `per_cell` gives for each row, by row.
    pub open spec fn over_rows(&self, per_cell: spec_fn(Point) -> Seq<Seq<int>>) -> spec_fn(
        int,
    ) -> Seq<Seq<int>> {
        |y: int| concat_upto(Layout::along_row(per_cell, y), self.width as int)
    }

    /// What `per_cell` gives for the squares of the board, row by row.
    pub open spec fn over_board(&self, per_cell: spec_fn(Point) -> Seq<Seq<int>>) -> Seq<
        Seq<int>,
    > {
        concat_upto(self.over_rows(per_cell), self.height as int)
    }

    /// The colour variables of `p`, by colour.
    pub open spec fn colour_lits(&self, p: Point) -> Seq<int> {
        Seq::new(self.colours as nat, |i: int| self.colour_var(p, i))
    }

    /// The clauses that give every square exactly one colour.
    pub open spec fn one_colour(&self) -> spec_fn(Point) -> Seq<Seq<int>> {
        |p: Point| exactly_one(self.colour_lits(p))
    }

    /// The neighbour of `p` on the given side, 0 for left, 1 for right, 2 for
    /// top and 3 for bottom, if the board has one.
    pub open spec fn beside(&self, p: Point, side: int) -> Option<Point> {
        if side == 0 {
            if p.x > 0 {
                Some(Point { x: (p.x - 1) as usize, y: p.y })
            } else {
                None
            }
        } else if side == 1 {
            if p.x + 1 < self.width {
                Some(Point { x: (p.x + 1) as usize, y: p.y })
            } else {
                None
            }
        } else if side == 2 {
            if p.y > 0 {
                Some(Point { x: p.x, y: (p.y - 1) as usize })
            } else {
                None
            }
        } else {
            if p.y + 1 < self.height {
                Some(Point { x: p.x, y: (p.y + 1) as usize })
            } else {
                None
            }
        }
    }

    /// The two sides that the way `t` joins: left and right, top and bottom,
    /// left and top, right and top, left and bottom, right and bottom.
    pub open spec fn turn_sides(t: int) -> (int, int) {
        if t == 0 {
            (0, 1)
        } else if t == 1 {
            (2, 3)
        } else if t == 2 {
            (0, 2)
        } else if t == 3 {
            (1, 2)
        } else if t == 4 {
            (0, 3)
        } else {
            (1, 3)
        }
    }

    /// The two neighbours of `p` that the way `t` joins, if the board has
    /// both.
    pub open spec fn turn_ends(&self, p: Point, t: int) -> Option<(Point, Point)> {
        match (
            self.beside(p, Layout::turn_sides(t).0),
            self.beside(p, Layout::turn_sides(t).1),
        ) {
            (Some(a), Some(b)) => Some((a, b)),
            _ => None,
        }
    }

    /// The turn variables of `p` for the ways below `t` that the board
    /// allows at `p`.
    pub open spec fn turn_lits(&self, p: Point, t: int) -> Seq<int>
        decreases t,
    {
        if t <= 0 {
            Seq::empty()
        } else if self.turn_ends(p, t - 1) is Some {
            self.turn_lits(p, t - 1).push(self.turn_var(p, t - 1))
        } else {
            self.turn_lits(p, t - 1)
        }
    }

    /// The clauses that give every square outside `ends` exactly one way.
    pub open spec fn one_turn(&self, ends: Set<Point>) -> spec_fn(Point) -> Seq<Seq<int>> {
        |p: Point|
            if ends.contains(p) {
                Seq::empty()
            } else {
                exactly_one(self.turn_lits(p, 6))
            }
    }

    /// The neighbour of `p` on a side, if the board has one.
    pub fn neighbour(&self, p: Point, side: usize) -> (r: Option<Point>)
        requires
            self.holds(p),
        ensures
            r == self.beside(p, side as int),
            r matches Some(q) ==> self.holds(q) && p.adjacent(q),
    {
        if side == 0 {
            if p.x > 0 {
                Some(Point::new(p.x - 1, p.y))
            } else {
                None
            }
        } else if side == 1 {
            if p.x < self.width - 1 {
                Some(Point::new(p.x + 1, p.y))
            } else {
                None
            }
        } else if side == 2 {
            if p.y > 0 {
                Some(Point::new(p.x, p.y - 1))
            } else {
                None
            }
        } else {
            if p.y < self.height - 1 {
                Some(Point::new(p.x, p.y + 1))
            } else {
                None
            }
        }
    }

    /// The two neighbours of `p` that the way `t` joins, if the board has
    /// both.
    pub fn turn_points(&self, p: Point, t: usize) -> (r: Option<(Point, Point)>)
        requires
            self.holds(p),
            t < 6,
        ensures
            r == self.turn_ends(p, t as int),
            r matches Some((a, b)) ==> self.holds(a) && self.holds(b) && p.adjacent(a)
                && p.adjacent(b) && a != b,
    {
        let (first, second): (usize, usize) = if t == 0 {
            (0, 1)
        } else if t == 1 {
            (2, 3)
        } else if t == 2 {
            (0, 2)
        } else if t == 3 {
            (1, 2)
        } else if t == 4 {
            (0, 3)
        } else {
            (1, 3)
        };
        match (self.neighbour(p, first), self.neighbour(p, second)) {
            (Some(a), Some(b)) => Some((a, b)),
            _ => None,
        }
    }

    /// Adds the clauses that give every square exactly one colour.
    fn add_one_colour(&self, formula: &mut varisat::CnfFormula)
        requires
            self.fits(),
        ensures
            formula_clauses(*final(formula)) == formula_clauses(*old(formula)) + self.over_board(
                self.one_colour(),
            ),
    {
        let ghost base = formula_clauses(*formula);
        let ghost per_cell = self.one_colour();
        let mut y: usize = 0;
        assert(formula_clauses(*formula) =~= base + concat_upto(self.over_rows(per_cell), 0));
        while y < self.height
            invariant
                self.fits(),
                y <= self.height,
                per_cell == self.one_colour(),
                formula_clauses(*formula) == base + concat_upto(
                    self.over_rows(per_cell),
                    y as int,
                ),
            decreases self.height - y,
        {
            let ghost row_base = formula_clauses(*formula);
            let ghost row = Layout::along_row(per_cell, y as int);
            let mut x: usize = 0;
            assert(formula_clauses(*formula) =~= row_base + concat_upto(row, 0));
            while x < self.width
                invariant
                    self.fits(),
                    y < self.height,
                    x <= self.width,
                    per_cell == self.one_colour(),
                    row == Layout::along_row(per_cell, y as int),
                    formula_clauses(*formula) == row_base + concat_upto(row, x as int),
                decreases self.width - x,
            {
                let p = Point::new(x, y);
                let ghost before = formula_clauses(*formula);
                let mut lits: Vec<isize> = Vec::new();
                let mut i: usize = 0;
                while i < self.colours
                    invariant
                        self.fits(),
                        self.holds(p),
                        i <= self.colours,
                        lits@.len() == i,
                        well_formed(lits@),
                        forall|k: int| 0 <= k < i ==> #[trigger] lits@[k] == self.colour_var(p, k),
                    decreases self.colours - i,
                {
                    lits.push(self.colour_lit(p, i));
                    i += 1;
                }
                proof {
                    assert(literals_of(lits@) =~= self.colour_lits(p));
                }
                add_exactly_one(formula, &lits);
                proof {
                    assert(row(x as int) == exactly_one(self.colour_lits(p)));
                    assert(formula_clauses(*formula) =~= row_base + concat_upto(row, x + 1));
                }
                x += 1;
            }
            proof {
                assert(self.over_rows(per_cell)(y as int) == concat_upto(row, self.width as int));
                assert(formula_clauses(*formula) =~= base + concat_upto(
                    self.over_rows(per_cell),
                    y + 1,
                ));
            }
            y += 1;
        }
    }

    /// The literals of the turn variables of `p` for the ways that the board
    /// allows at `p`.
    fn allowed_turns(&self, p: Point) -> (lits: Vec<isize>)
        requires
            self.fits(),
            self.holds(p),
        ensures
            well_formed(lits@),
            literals_of(lits@) == self.turn_lits(p, 6),
    {
        let mut lits: Vec<isize> = Vec::new();
        let mut t: usize = 0;
        assert(literals_of(lits@) =~= self.turn_lits(p, 0));
        while t < 6
            invariant
                self.fits(),
                self.holds(p),
                t <= 6,
                well_formed(lits@),
                literals_of(lits@) == self.turn_lits(p, t as int),
            decreases 6 - t,
        {
            let ghost before = lits@;
            if self.turn_points(p, t).is_some() {
                lits.push(self.turn_lit(p, t));
                proof {
                    assert(literals_of(lits@) =~= literals_of(before).push(
                        self.turn_var(p, t as int),
                    ));
                }
            }
            t += 1;
        }
        lits
    }

    /// Adds the clauses that give every square that holds no endpoint exactly
    /// one way.
    fn add_one_turn(&self, formula: &mut varisat::CnfFormula, grid: &Grid)
        requires
            self.fits(),
            grid.wf(),
            grid.width == self.width,
            grid.height == self.height,
        ensures
            formula_clauses(*final(formula)) == formula_clauses(*old(formula)) + self.over_board(
                self.one_turn(grid.endpoint_squares()),
            ),
    {
        let ghost base = formula_clauses(*formula);
        let ghost per_cell = self.one_turn(grid.endpoint_squares());
        let mut y: usize = 0;
        assert(formula_clauses(*formula) =~= base + concat_upto(self.over_rows(per_cell), 0));
        while y < self.height
            invariant
                self.fits(),
                grid.wf(),
                grid.width == self.width,
                grid.height == self.height,
                y <= self.height,
                per_cell == self.one_turn(grid.endpoint_squares()),
                formula_clauses(*formula) == base + concat_upto(
                    self.over_rows(per_cell),
                    y as int,
                ),
            decreases self.height - y,
        {
            let ghost row_base = formula_clauses(*formula);
            let ghost row = Layout::along_row(per_cell, y as int);
            let mut x: usize = 0;
            assert(formula_clauses(*formula) =~= row_base + concat_upto(row, 0));
            while x < self.width
                invariant
                    self.fits(),
                    grid.wf(),
                    grid.width == self.width,
                    grid.height == self.height,
                    y < self.height,
                    x <= self.width,
                    per_cell == self.one_turn(grid.endpoint_squares()),
                    row == Layout::along_row(per_cell, y as int),
                    formula_clauses(*formula) == row_base + concat_upto(row, x as int),
                decreases self.width - x,
            {
                let p = Point::new(x, y);
                match grid.get(p) {
                    Cell::Endpoint { .. } => {
                        proof {
                            assert(grid.endpoint_squares().contains(p));
                            assert(row(x as int) =~= Seq::<Seq<int>>::empty());
                        }
                    },
                    _ => {
                        let lits = self.allowed_turns(p);
                        add_exactly_one(formula, &lits);
                        proof {
                            assert(!grid.endpoint_squares().contains(p));
                            assert(row(x as int) == exactly_one(self.turn_lits(p, 6)));
                        }
                    },
                }
                proof {
                    assert(formula_clauses(*formula) =~= row_base + concat_upto(row, x + 1));
                }
                x += 1;
            }
            proof {
                assert(self.over_rows(per_cell)(y as int) == concat_upto(row, self.width as int));
                assert(formula_clauses(*formula) =~= base + concat_upto(
                    self.over_rows(per_cell),
                    y + 1,
                ));
            }
            y += 1;
        }
    }
}

impl Grid {
    /// The squares that hold an endpoint.
    pub open spec fn endpoint_squares(&self) -> Set<Point> {
        Set::new(|p: Point| self.in_bounds(p) && self.at(p) is Endpoint)
    }
}

impl Layout {
    /// For the colour at position `k`, the colour variables of the neighbours
    /// of `p`.
    pub open spec fn near_lits(&self, p: Point, k: int) -> Seq<int> {
        p.neighbours_on(self.width as int, self.height as int).map_values(
            |q: Point| self.colour_var(q, k),
        )
    }

    /// The clauses that deny the squares `a` and `b` every colour but the one
    /// at position `k`.
    pub open spec fn not_other(&self, a: Point, b: Point, k: int) -> spec_fn(int) -> Seq<
        Seq<int>,
    > {
        |j: int|
            if j == k {
                Seq::empty()
            } else {
                seq![seq![-self.colour_var(a, j)], seq![-self.colour_var(b, j)]]
            }
    }

    /// The clauses for the endpoints `a` and `b` of the colour at position
    /// `k`: each has that colour and no other, and exactly one neighbour of
    /// each has that colour.
    pub open spec fn pair_part(&self, a: Point, b: Point, k: int) -> Seq<Seq<int>> {
        seq![seq![self.colour_var(a, k)], seq![self.colour_var(b, k)]] + concat_upto(
            self.not_other(a, b, k),
            self.colours as int,
        ) + exactly_one(self.near_lits(a, k)) + exactly_one(self.near_lits(b, k))
    }

    /// The clauses for the endpoints, by colour.
    pub open spec fn fixed_ends(&self, entries: Seq<(Colour, Point, Point)>) -> spec_fn(
        int,
    ) -> Seq<Seq<int>> {
        |k: int| self.pair_part(entries[k].1, entries[k].2, k)
    }

    /// The clauses that keep the colour at position `i` away from the
    /// neighbours of `p` other than `a` and `b` when `p` has that colour and
    /// the way `t`.
    pub open spec fn keep_apart(&self, p: Point, i: int, t: int, a: Point, b: Point) -> spec_fn(
        int,
    ) -> Seq<Seq<int>> {
        |k: int|
            {
                let q = p.neighbours_on(self.width as int, self.height as int)[k];
                if q == a || q == b {
                    Seq::empty()
                } else {
                    seq![
                        seq![-self.turn_var(p, t), -self.colour_var(p, i), -self.colour_var(q, i)],
                    ]
                }
            }
    }

    /// The clauses for the square `p`, the colour at position `i` and the way
    /// `t`: if `p` has the way `t`, then `p` has the colour exactly if each of
    /// the two neighbours that the way joins has it, and if `p` has it, no
    /// other neighbour has it. No clause where the board lacks one of the two
    /// neighbours.
    pub open spec fn turn_part(&self, p: Point, i: int, t: int) -> Seq<Seq<int>> {
        match self.turn_ends(p, t) {
            None => Seq::empty(),
            Some((a, b)) => seq![
                seq![-self.turn_var(p, t), -self.colour_var(p, i), self.colour_var(a, i)],
                seq![-self.turn_var(p, t), self.colour_var(p, i), -self.colour_var(a, i)],
                seq![-self.turn_var(p, t), -self.colour_var(p, i), self.colour_var(b, i)],
                seq![-self.turn_var(p, t), self.colour_var(p, i), -self.colour_var(b, i)],
            ] + concat_upto(
                self.keep_apart(p, i, t, a, b),
                p.neighbours_on(self.width as int, self.height as int).len() as int,
            ),
        }
    }

    /// The clauses for the square `p` and the colour at position `i`, by way.
    pub open spec fn turns_of(&self, p: Point, i: int) -> spec_fn(int) -> Seq<Seq<int>> {
        |t: int| self.turn_part(p, i, t)
    }

    /// The clauses for the square `p`, by colour.
    pub open spec fn colours_of(&self, p: Point) -> spec_fn(int) -> Seq<Seq<int>> {
        |i: int| concat_upto(self.turns_of(p, i), 6)
    }

    /// The clauses that tie the colour of every square outside `ends` to the
    /// colours of its neighbours by the way of the square.
    pub open spec fn follow_turn(&self, ends: Set<Point>) -> spec_fn(Point) -> Seq<Seq<int>> {
        |p: Point|
            if ends.contains(p) {
                Seq::empty()
            } else {
                concat_upto(self.colours_of(p), self.colours as int)
            }
    }

    /// The whole formula of a puzzle: every square has exactly one colour;
    /// the endpoints are fixed; every other square has exactly one way; and
    /// the ways tie the colours of neighbours together.
    pub open spec fn encoding(&self, ends: Set<Point>, entries: Seq<(Colour, Point, Point)>) -> Seq<
        Seq<int>,
    > {
        self.over_board(self.one_colour()) + concat_upto(
            self.fixed_ends(entries),
            self.colours as int,
        ) + self.over_board(self.one_turn(ends)) + self.over_board(self.follow_turn(ends))
    }

    /// Adds the clause that holds `lit` alone.
    fn add_unit(formula: &mut varisat::CnfFormula, lit: isize)
        requires
            lit != 0,
            -MAX_VARIABLES <= lit <= MAX_VARIABLES,
        ensures
            formula_clauses(*final(formula)) == formula_clauses(*old(formula)).push(
                seq![lit as int],
            ),
    {
        let mut clause: Vec<isize> = Vec::new();
        clause.push(lit);
        assert(literals_of(clause@) =~= seq![lit as int]);
        add_clause(formula, &clause);
    }

    /// Adds the clause of the three literals.
    fn add_triple(formula: &mut varisat::CnfFormula, first: isize, second: isize, third: isize)
        requires
            first != 0,
            -MAX_VARIABLES <= first <= MAX_VARIABLES,
            second != 0,
            -MAX_VARIABLES <= second <= MAX_VARIABLES,
            third != 0,
            -MAX_VARIABLES <= third <= MAX_VARIABLES,
        ensures
            formula_clauses(*final(formula)) == formula_clauses(*old(formula)).push(
                seq![first as int, second as int, third as int],
            ),
    {
        let mut clause: Vec<isize> = Vec::new();
        clause.push(first);
        clause.push(second);
        clause.push(third);
        assert(literals_of(clause@) =~= seq![first as int, second as int, third as int]);
        add_clause(formula, &clause);
    }

    /// Adds the clauses that say that exactly one neighbour of `p` has the
    /// colour at position `k`.
    fn add_one_neighbour(&self, formula: &mut varisat::CnfFormula, p: Point, k: usize)
        requires
            self.fits(),
            self.holds(p),
            k < self.colours,
        ensures
            formula_clauses(*final(formula)) == formula_clauses(*old(formula)) + exactly_one(
                self.near_lits(p, k as int),
            ),
    {
        let around = p.neighbors(self.width, self.height);
        proof {
            p.lemma_neighbours(self.width as int, self.height as int);
        }
        let mut lits: Vec<isize> = Vec::new();
        let mut j: usize = 0;
        while j < around.len()
            invariant
                self.fits(),
                k < self.colours,
                j <= around.len(),
                around@ == p.neighbours_on(self.width as int, self.height as int),
                forall|q: Point| #[trigger] around@.contains(q) ==> self.holds(q),
                lits@.len() == j,
                well_formed(lits@),
                forall|i: int|
                    0 <= i < j ==> #[trigger] lits@[i] == self.colour_var(around@[i], k as int),
            decreases around.len() - j,
        {
            assert(around@.contains(around@[j as int]));
            lits.push(self.colour_lit(around[j], k));
            j += 1;
        }
        proof {
            assert(literals_of(lits@) =~= self.near_lits(p, k as int));
        }
        add_exactly_one(formula, &lits);
    }

    /// Adds the clauses for the endpoints, colour by colour.
    fn add_fixed_ends(
        &self,
        formula: &mut varisat::CnfFormula,
        entries: &Vec<(Colour, Point, Point)>,
    )
        requires
            self.fits(),
            self.colours == entries@.len(),
            forall|k: int|
                0 <= k < entries@.len() ==> self.holds((#[trigger] entries@[k]).1) && self.holds(
                    entries@[k].2,
                ),
        ensures
            formula_clauses(*final(formula)) == formula_clauses(*old(formula)) + concat_upto(
                self.fixed_ends(entries@),
                self.colours as int,
            ),
    {
        let ghost base = formula_clauses(*formula);
        let ghost parts = self.fixed_ends(entries@);
        let mut k: usize = 0;
        assert(formula_clauses(*formula) =~= base + concat_upto(parts, 0));
        while k < entries.len()
            invariant
                self.fits(),
                self.colours == entries@.len(),
                forall|k: int|
                    0 <= k < entries@.len() ==> self.holds((#[trigger] entries@[k]).1)
                        && self.holds(entries@[k].2),
                k <= entries.len(),
                parts == self.fixed_ends(entries@),
                formula_clauses(*formula) == base + concat_upto(parts, k as int),
            decreases entries.len() - k,
        {
            let (_, a, b) = entries[k];
            let ghost before = formula_clauses(*formula);
            proof {
                assert(self.holds(entries@[k as int].1));
            }
            Layout::add_unit(formula, self.colour_lit(a, k));
            Layout::add_unit(formula, self.colour_lit(b, k));
            let ghost fixed = formula_clauses(*formula);
            let ghost others = self.not_other(a, b, k as int);
            let mut j: usize = 0;
            proof {
                assert(fixed =~= before + seq![
                    seq![self.colour_var(a, k as int)],
                    seq![self.colour_var(b, k as int)],
                ]);
                assert(formula_clauses(*formula) =~= fixed + concat_upto(others, 0));
            }
            while j < self.colours
                invariant
                    self.fits(),
                    self.holds(a),
                    self.holds(b),
                    k < self.colours,
                    j <= self.colours,
                    others == self.not_other(a, b, k as int),
                    formula_clauses(*formula) == fixed + concat_upto(others, j as int),
                decreases self.colours - j,
            {
                if j != k {
                    let ghost mid = formula_clauses(*formula);
                    Layout::add_unit(formula, -self.colour_lit(a, j));
                    Layout::add_unit(formula, -self.colour_lit(b, j));
                    proof {
                        assert(formula_clauses(*formula) =~= mid + others(j as int));
                    }
                } else {
                    proof {
                        assert(others(j as int) =~= Seq::<Seq<int>>::empty());
                    }
                }
                proof {
                    assert(formula_clauses(*formula) =~= fixed + concat_upto(others, j + 1));
                }
                j += 1;
            }
            self.add_one_neighbour(formula, a, k);
            self.add_one_neighbour(formula, b, k);
            proof {
                assert(parts(k as int) == self.pair_part(a, b, k as int));
                assert(formula_clauses(*formula) =~= before + self.pair_part(a, b, k as int));
                assert(formula_clauses(*formula) =~= base + concat_upto(parts, k + 1));
            }
            k += 1;
        }
    }

    /// Adds the clauses for the square `p`, the colour at position `i` and the
    /// way `t`.
    fn add_turn_part(&self, formula: &mut varisat::CnfFormula, p: Point, i: usize, t: usize)
        requires
            self.fits(),
            self.holds(p),
            i < self.colours,
            t < 6,
        ensures
            formula_clauses(*final(formula)) == formula_clauses(*old(formula)) + self.turn_part(
                p,
                i as int,
                t as int,
            ),
    {
        let ghost base = formula_clauses(*formula);
        match self.turn_points(p, t) {
            None => {
                assert(formula_clauses(*formula) =~= base + self.turn_part(p, i as int, t as int));
            },
            Some((a, b)) => {
                let turn = self.turn_lit(p, t);
                let here = self.colour_lit(p, i);
                let first = self.colour_lit(a, i);
                let second = self.colour_lit(b, i);
                Layout::add_triple(formula, -turn, -here, first);
                Layout::add_triple(formula, -turn, here, -first);
                Layout::add_triple(formula, -turn, -here, second);
                Layout::add_triple(formula, -turn, here, -second);
                let ghost linked = formula_clauses(*formula);
                let ghost apart = self.keep_apart(p, i as int, t as int, a, b);
                let around = p.neighbors(self.width, self.height);
                proof {
                    p.lemma_neighbours(self.width as int, self.height as int);
                    assert(linked =~= base + seq![
                        seq![
                            -self.turn_var(p, t as int),
                            -self.colour_var(p, i as int),
                            self.colour_var(a, i as int),
                        ],
                        seq![
                            -self.turn_var(p, t as int),
                            self.colour_var(p, i as int),
                            -self.colour_var(a, i as int),
                        ],
                        seq![
                            -self.turn_var(p, t as int),
                            -self.colour_var(p, i as int),
                            self.colour_var(b, i as int),
                        ],
                        seq![
                            -self.turn_var(p, t as int),
                            self.colour_var(p, i as int),
                            -self.colour_var(b, i as int),
                        ],
                    ]);
                    assert(formula_clauses(*formula) =~= linked + concat_upto(apart, 0));
                }
                let mut k: usize = 0;
                while k < around.len()
                    invariant
                        self.fits(),
                        self.holds(p),
                        i < self.colours,
                        t < 6,
                        k <= around.len(),
                        turn == self.turn_var(p, t as int),
                        here == self.colour_var(p, i as int),
                        1 <= turn <= MAX_VARIABLES,
                        1 <= here <= MAX_VARIABLES,
                        around@ == p.neighbours_on(self.width as int, self.height as int),
                        forall|q: Point| #[trigger] around@.contains(q) ==> self.holds(q),
                        apart == self.keep_apart(p, i as int, t as int, a, b),
                        formula_clauses(*formula) == linked + concat_upto(apart, k as int),
                    decreases around.len() - k,
                {
                    let q = around[k];
                    let ghost mid = formula_clauses(*formula);
                    assert(around@.contains(around@[k as int]));
                    if !(q == a || q == b) {
                        Layout::add_triple(formula, -turn, -here, -self.colour_lit(q, i));
                        proof {
                            assert(formula_clauses(*formula) =~= mid + apart(k as int));
                        }
                    } else {
                        proof {
                            assert(apart(k as int) =~= Seq::<Seq<int>>::empty());
                        }
                    }
                    proof {
                        assert(formula_clauses(*formula) =~= linked + concat_upto(apart, k + 1));
                    }
                    k += 1;
                }
                proof {
                    assert(formula_clauses(*formula) =~= base + self.turn_part(
                        p,
                        i as int,
                        t as int,
                    ));
                }
            },
        }
    }

    /// Adds the clauses that tie the colour of every square that holds no
    /// endpoint to the colours of its neighbours.
    fn add_follow_turn(&self, formula: &mut varisat::CnfFormula, grid: &Grid)
        requires
            self.fits(),
            grid.wf(),
            grid.width == self.width,
            grid.height == self.height,
        ensures
            formula_clauses(*final(formula)) == formula_clauses(*old(formula)) + self.over_board(
                self.follow_turn(grid.endpoint_squares()),
            ),
    {
        let ghost base = formula_clauses(*formula);
        let ghost per_cell = self.follow_turn(grid.endpoint_squares());
        let mut y: usize = 0;
        assert(formula_clauses(*formula) =~= base + concat_upto(self.over_rows(per_cell), 0));
        while y < self.height
            invariant
                self.fits(),
                grid.wf(),
                grid.width == self.width,
                grid.height == self.height,
                y <= self.height,
                per_cell == self.follow_turn(grid.endpoint_squares()),
                formula_clauses(*formula) == base + concat_upto(
                    self.over_rows(per_cell),
                    y as int,
                ),
            decreases self.height - y,
        {
            let ghost row_base = formula_clauses(*formula);
            let ghost row = Layout::along_row(per_cell, y as int);
            let mut x: usize = 0;
            assert(formula_clauses(*formula) =~= row_base + concat_upto(row, 0));
            while x < self.width
                invariant
                    self.fits(),
                    grid.wf(),
                    grid.width == self.width,
                    grid.height == self.height,
                    y < self.height,
                    x <= self.width,
                    per_cell == self.follow_turn(grid.endpoint_squares()),
                    row == Layout::along_row(per_cell, y as int),
                    formula_clauses(*formula) == row_base + concat_upto(row, x as int),
                decreases self.width - x,
            {
                let p = Point::new(x, y);
                let ghost cell_base = formula_clauses(*formula);
                match grid.get(p) {
                    Cell::Endpoint { .. } => {
                        proof {
                            assert(grid.endpoint_squares().contains(p));
                            assert(row(x as int) =~= Seq::<Seq<int>>::empty());
                        }
                    },
                    _ => {
                        let ghost by_colour = self.colours_of(p);
                        let mut i: usize = 0;
                        assert(formula_clauses(*formula) =~= cell_base + concat_upto(by_colour, 0));
                        while i < self.colours
                            invariant
                                self.fits(),
                                self.holds(p),
                                i <= self.colours,
                                by_colour == self.colours_of(p),
                                formula_clauses(*formula) == cell_base + concat_upto(
                                    by_colour,
                                    i as int,
                                ),
                            decreases self.colours - i,
                        {
                            let ghost colour_base = formula_clauses(*formula);
                            let ghost by_turn = self.turns_of(p, i as int);
                            let mut t: usize = 0;
                            assert(formula_clauses(*formula) =~= colour_base + concat_upto(
                                by_turn,
                                0,
                            ));
                            while t < 6
                                invariant
                                    self.fits(),
                                    self.holds(p),
                                    i < self.colours,
                                    t <= 6,
                                    by_turn == self.turns_of(p, i as int),
                                    formula_clauses(*formula) == colour_base + concat_upto(
                                        by_turn,
                                        t as int,
                                    ),
                                decreases 6 - t,
                            {
                                self.add_turn_part(formula, p, i, t);
                                proof {
                                    assert(by_turn(t as int) == self.turn_part(
                                        p,
                                        i as int,
                                        t as int,
                                    ));
                                    assert(formula_clauses(*formula) =~= colour_base + concat_upto(
                                        by_turn,
                                        t + 1,
                                    ));
                                }
                                t += 1;
                            }
                            proof {
                                assert(by_colour(i as int) == concat_upto(by_turn, 6));
                                assert(formula_clauses(*formula) =~= cell_base + concat_upto(
                                    by_colour,
                                    i + 1,
                                ));
                            }
                            i += 1;
                        }
                        proof {
                            assert(!grid.endpoint_squares().contains(p));
                            assert(row(x as int) == concat_upto(by_colour, self.colours as int));
                        }
                    },
                }
                proof {
                    assert(formula_clauses(*formula) =~= row_base + concat_upto(row, x + 1));
                }
                x += 1;
            }
            proof {
                assert(self.over_rows(per_cell)(y as int) == concat_upto(row, self.width as int));
                assert(formula_clauses(*formula) =~= base + concat_upto(
                    self.over_rows(per_cell),
                    y + 1,
                ));
            }
            y += 1;
        }
    }

    /// Writes the formula of the puzzle on `grid` with the endpoints
    /// `entries`.
    pub fn encode(&self, grid: &Grid, entries: &Vec<(Colour, Point, Point)>) -> (formula:
        varisat::CnfFormula)
        requires
            self.fits(),
            grid.wf(),
            grid.width == self.width,
            grid.height == self.height,
            self.colours == entries@.len(),
            forall|k: int|
                0 <= k < entries@.len() ==> self.holds((#[trigger] entries@[k]).1) && self.holds(
                    entries@[k].2,
                ),
        ensures
            formula_clauses(formula) == self.encoding(grid.endpoint_squares(), entries@),
    {
        let mut formula = new_formula();
        self.add_one_colour(&mut formula);
        self.add_fixed_ends(&mut formula, entries);
        self.add_one_turn(&mut formula, grid);
        self.add_follow_turn(&mut formula, grid);
        proof {
            assert(formula_clauses(formula) =~= self.encoding(
                grid.endpoint_squares(),
                entries@,
            ));
        }
        formula
    }
}

/// The cell that a model writes over `cell` for `colour`: an endpoint where an
/// endpoint stood, a path cell elsewhere.
pub open spec fn recoloured(cell: Cell, colour: Colour) -> Cell {
    if cell is Endpoint {
        Cell::Endpoint { colour }
    } else {
        Cell::Path { colour }
    }
}

impl Layout {
    /// Whether `i` is the first position of a colour that `model` gives to
    /// `p`.
    pub open spec fn picks_colour(&self, model: Seq<int>, p: Point, i: int) -> bool {
        &&& 0 <= i < self.colours
        &&& model.contains(self.colour_var(p, i))
        &&& forall|j: int| 0 <= j < i ==> !model.contains(#[trigger] self.colour_var(p, j))
    }

    /// Whether `model` gives no colour to `p`.
    pub open spec fn colourless(&self, model: Seq<int>, p: Point) -> bool {
        forall|i: int| 0 <= i < self.colours ==> !model.contains(#[trigger] self.colour_var(p, i))
    }

    /// Whether `r` is what `model` reads as on the board `grid`: every square
    /// holds the first colour that the model gives it, as an endpoint where
    /// `grid` has an endpoint and as a path cell elsewhere; or nothing, where
    /// the model leaves some square without a colour.
    pub open spec fn decodes(
        &self,
        grid: &Grid,
        entries: Seq<(Colour, Point, Point)>,
        model: Seq<int>,
        r: Option<Grid>,
    ) -> bool {
        match r {
            Some(board) => {
                &&& board.wf()
                &&& board.width == grid.width
                &&& board.height == grid.height
                &&& forall|p: Point|
                    grid.in_bounds(p) ==> exists|i: int| #[trigger]
                        self.picks_colour(model, p, i) && board.at(p) == recoloured(
                            grid.at(p),
                            entries[i].0,
                        )
            },
            None => exists|p: Point| grid.in_bounds(p) && #[trigger] self.colourless(model, p),
        }
    }

    /// The number of variables.
    pub fn count_variables(&self) -> (n: usize)
        requires
            self.fits(),
        ensures
            n == self.variables(),
            n <= MAX_VARIABLES,
    {
        if self.width == 0 || self.height == 0 {
            assert(self.cells() == 0) by (nonlinear_arith)
                requires
                    self.cells() == self.width * self.height,
                    self.width == 0 || self.height == 0,
            ;
            assert(self.variables() == 0) by (nonlinear_arith)
                requires
                    self.variables() == self.cells() * (self.colours + 6),
                    self.cells() == 0,
            ;
            return 0;
        }
        proof {
            let c = self.cells();
            let n = self.colours as int;
            assert(c >= 1) by (nonlinear_arith)
                requires
                    c == self.width * self.height,
                    self.width >= 1,
                    self.height >= 1,
            ;
            assert(n + 6 <= c * (n + 6) && c <= c * (n + 6)) by (nonlinear_arith)
                requires
                    c >= 1,
                    n >= 0,
            ;
        }
        let cells: usize = self.width * self.height;
        cells * (self.colours + 6)
    }

    /// For every variable, whether `model` holds it as a positive literal.
    fn truth_table(&self, model: &Vec<isize>) -> (truth: Vec<bool>)
        requires
            self.fits(),
        ensures
            truth@.len() == self.variables() + 1,
            forall|v: int|
                1 <= v <= self.variables() ==> #[trigger] truth@[v] == literals_of(
                    model@,
                ).contains(v),
    {
        let total = self.count_variables();
        let mut truth: Vec<bool> = Vec::new();
        let mut n: usize = 0;
        while n <= total
            invariant
                n <= total + 1,
                total <= MAX_VARIABLES,
                truth@.len() == n,
                forall|v: int| 0 <= v < n ==> !truth@[v],
            decreases total + 1 - n,
        {
            truth.push(false);
            n += 1;
        }
        let ghost lits = literals_of(model@);
        let mut k: usize = 0;
        while k < model.len()
            invariant
                k <= model.len(),
                lits == literals_of(model@),
                truth@.len() == total + 1,
                forall|v: int|
                    1 <= v <= total ==> #[trigger] truth@[v] == lits.subrange(0, k as int).contains(
                        v,
                    ),
            decreases model.len() - k,
        {
            let lit = model[k];
            let ghost before = truth@;
            let ghost done = lits.subrange(0, k as int);
            let ghost more = lits.subrange(0, k + 1);
            proof {
                assert(more =~= done.push(lit as int));
                assert forall|v: int| more.contains(v) <==> (done.contains(v) || v == lit) by {
                    if done.contains(v) {
                        let i = choose|i: int| 0 <= i < done.len() && done[i] == v;
                        assert(more[i] == v);
                    }
                    if v == lit {
                        assert(more[k as int] == v);
                    }
                }
            }
            if lit >= 1 && lit as usize <= total {
                truth[lit as usize] = true;
            }
            k += 1;
        }
        proof {
            assert(lits.subrange(0, k as int) =~= lits);
        }
        truth
    }

    /// Reads `model` as a board: every square gets the first colour that the
    /// model gives it, as an endpoint where `grid` has an endpoint and as a
    /// path cell elsewhere. Where the model leaves a square without a colour
    /// there is no board.
    pub fn decode(
        &self,
        grid: &Grid,
        entries: &Vec<(Colour, Point, Point)>,
        model: &Vec<isize>,
    ) -> (r: Option<Grid>)
        requires
            self.fits(),
            grid.wf(),
            grid.width == self.width,
            grid.height == self.height,
            self.colours == entries@.len(),
        ensures
            self.decodes(grid, entries@, literals_of(model@), r),
    {
        let truth = self.truth_table(model);
        let ghost lits = literals_of(model@);
        let mut cells: Vec<Vec<Cell>> = Vec::new();
        let mut y: usize = 0;
        while y < self.height
            invariant
                self.fits(),
                grid.wf(),
                grid.width == self.width,
                grid.height == self.height,
                self.colours == entries@.len(),
                lits == literals_of(model@),
                truth@.len() == self.variables() + 1,
                forall|v: int|
                    1 <= v <= self.variables() ==> #[trigger] truth@[v] == lits.contains(v),
                y <= self.height,
                cells@.len() == y,
                forall|j: int| 0 <= j < y ==> (#[trigger] cells@[j])@.len() == self.width,
                forall|p: Point|
                    grid.in_bounds(p) && p.y < y ==> exists|i: int| #[trigger]
                        self.picks_colour(lits, p, i) && cells@[p.y as int]@[p.x as int]
                            == recoloured(grid.at(p), entries@[i].0),
            decreases self.height - y,
        {
            let mut row: Vec<Cell> = Vec::new();
            let mut x: usize = 0;
            while x < self.width
                invariant
                    self.fits(),
                    grid.wf(),
                    grid.width == self.width,
                    grid.height == self.height,
                    self.colours == entries@.len(),
                    lits == literals_of(model@),
                    truth@.len() == self.variables() + 1,
                    forall|v: int|
                        1 <= v <= self.variables() ==> #[trigger] truth@[v] == lits.contains(v),
                    y < self.height,
                    x <= self.width,
                    row@.len() == x,
                    forall|p: Point|
                        grid.in_bounds(p) && p.y == y && p.x < x ==> exists|i: int| #[trigger]
                            self.picks_colour(lits, p, i) && row@[p.x as int] == recoloured(
                                grid.at(p),
                                entries@[i].0,
                            ),
                decreases self.width - x,
            {
                let p = Point::new(x, y);
                let ghost before = row@;
                proof {
                    self.lemma_numbering(p);
                }
                let mut found: Option<usize> = None;
                let mut i: usize = 0;
                while i < self.colours && found.is_none()
                    invariant
                        self.fits(),
                        self.holds(p),
                        i <= self.colours,
                        truth@.len() == self.variables() + 1,
                        forall|v: int|
                            1 <= v <= self.variables() ==> #[trigger] truth@[v] == lits.contains(v),
                        forall|k: int|
                            0 <= k < self.colours ==> 1 <= #[trigger] self.colour_var(p, k)
                                <= self.cells() * self.colours,
                        self.cells() * self.colours <= self.variables(),
                        match found {
                            Some(k) => self.picks_colour(lits, p, k as int),
                            None => forall|j: int|
                                0 <= j < i ==> !lits.contains(#[trigger] self.colour_var(p, j)),
                        },
                    decreases self.colours - i + (if found is None { 1int } else { 0int }),
                {
                    let lit = self.colour_lit(p, i);
                    if truth[lit as usize] {
                        found = Some(i);
                    } else {
                        i += 1;
                    }
                }
                match found {
                    Some(k) => {
                        let colour = entries[k].0;
                        let cell = match grid.get(p) {
                            Cell::Endpoint { .. } => Cell::Endpoint { colour },
                            _ => Cell::Path { colour },
                        };
                        row.push(cell);
                        proof {
                            assert forall|q: Point|
                                grid.in_bounds(q) && q.y == y && q.x < x + 1 implies exists|i: int| #[trigger]
                                self.picks_colour(lits, q, i) && row@[q.x as int] == recoloured(
                                    grid.at(q),
                                    entries@[i].0,
                                ) by {
                                if q.x < x {
                                    let i = choose|i: int| #[trigger]
                                        self.picks_colour(lits, q, i) && before[q.x as int]
                                            == recoloured(grid.at(q), entries@[i].0);
                                    assert(self.picks_colour(lits, q, i) && row@[q.x as int]
                                        == recoloured(grid.at(q), entries@[i].0));
                                } else {
                                    assert(q == p);
                                    assert(self.picks_colour(lits, q, k as int) && row@[q.x as int]
                                        == recoloured(grid.at(q), entries@[k as int].0));
                                }
                            }
                        }
                    },
                    None => {
                        assert(self.colourless(lits, p));
                        return None;
                    },
                }
                x += 1;
            }
            let ghost above = cells@;
            cells.push(row);
            proof {
                assert forall|p: Point| grid.in_bounds(p) && p.y < y + 1 implies exists|i: int| #[trigger]
                    self.picks_colour(lits, p, i) && cells@[p.y as int]@[p.x as int] == recoloured(
                        grid.at(p),
                        entries@[i].0,
                    ) by {
                    if p.y < y {
                        let i = choose|i: int| #[trigger]
                            self.picks_colour(lits, p, i) && above[p.y as int]@[p.x as int]
                                == recoloured(grid.at(p), entries@[i].0);
                        assert(self.picks_colour(lits, p, i) && cells@[p.y as int]@[p.x as int]
                            == recoloured(grid.at(p), entries@[i].0));
                    } else {
                        let i = choose|i: int| #[trigger]
                            self.picks_colour(lits, p, i) && row@[p.x as int] == recoloured(
                                grid.at(p),
                                entries@[i].0,
                            );
                        assert(self.picks_colour(lits, p, i) && cells@[p.y as int]@[p.x as int]
                            == recoloured(grid.at(p), entries@[i].0));
                    }
                }
            }
            y += 1;
        }
        Some(Grid { width: grid.width, height: grid.height, cells })
    }
}

impl Grid {
    /// Whether `r` is the answer of the satisfiability solver on the
    /// board whose endpoints `table` lists: the engine is asked for a model of
    /// the formula of the puzzle, and a model that it finds is read back as a
    /// board (`Layout::decodes`). There is no answer where the puzzle needs
    /// more variables than the engine takes, where the engine finds the
    /// formula unsatisfiable or fails, or where the model leaves a square
    /// without a colour.
    pub open spec fn sat_answer(&self, table: Endpoints, r: Option<Grid>) -> bool {
        let entries = table.listing();
        let layout = Layout { width: self.width, height: self.height, colours: entries.len() as usize };
        if !layout.fits() {
            r is None
        } else {
            match sat_outcome(layout.encoding(self.endpoint_squares(), entries)) {
                (true, Some(model)) => layout.decodes(self, entries, model, r),
                _ => r is None,
            }
        }
    }
}

/// Tables with the same pairs list them alike.
pub proof fn lemma_same_listing(first: Endpoints, second: Endpoints, k: int)
    requires
        first@ == second@,
    ensures
        first.listing_upto(k) == second.listing_upto(k),
    decreases k,
{
    if k > 0 {
        lemma_same_listing(first, second, k - 1);
    }
}

/// Solves the board by way of a satisfiability engine: the puzzle is written
/// as a formula, and a model of the formula is read back as a board, in which
/// every square has a colour.
///
/// A board that is returned is solved and has the endpoints of `grid` where
/// they were. What `grid` holds besides its endpoints does not matter.
pub fn solve_sat(grid: &Grid) -> (r: Option<Grid>)
    requires
        grid.wf(),
        grid.paired(),
    ensures
        forall|table: Endpoints| #[trigger]
            grid.endpoints_are(table) ==> {
                &&& grid.sat_answer(table, r)
                &&& match r {
                    Some(board) => board.solved(table) && board.endpoints_are(table),
                    None => true,
                }
            },
{
    let endpoints = match grid.get_endpoints() {
        Ok(endpoints) => endpoints,
        Err(_) => {
            return None;
        },
    };
    proof {
        grid.lemma_listed_endpoints_are_paired(endpoints);
    }
    let entries = endpoints.entries();
    proof {
        assert forall|table: Endpoints| #[trigger] grid.endpoints_are(table) implies table.listing()
            == entries@ && table@ == endpoints@ by {
            grid.lemma_one_table(endpoints, table);
            lemma_same_listing(endpoints, table, crate::board::COLOUR_COUNT as int);
        }
        assert forall|k: int| 0 <= k < entries@.len() implies grid.in_bounds(
            (#[trigger] entries@[k]).1,
        ) && grid.in_bounds(entries@[k].2) by {
            assert(endpoints.pair(entries@[k].0) == Some((entries@[k].1, entries@[k].2)));
            assert(endpoints@.dom().contains(entries@[k].0));
        }
    }
    let layout = match Layout::plan(grid.width, grid.height, entries.len()) {
        Some(layout) => layout,
        None => {
            return None;
        },
    };
    let formula = layout.encode(grid, &entries);
    let (sat, model) = run_solver(&formula);
    if sat {
        match model {
            Some(model) => {
                let r = layout.decode(grid, &entries, &model);
                proof {
                    match &r {
                        Some(board) => {
                            assert(crate::model::lists(endpoints, entries@));
                            crate::model::lemma_model_solves(
                                layout,
                                grid,
                                endpoints,
                                entries@,
                                literals_of(model@),
                                board,
                            );
                            assert forall|table: Endpoints| #[trigger]
                                grid.endpoints_are(table) implies board.solved(table)
                                && board.endpoints_are(table) by {
                                board.lemma_same_table(endpoints, table);
                            }
                        },
                        None => {},
                    }
                }
                r
            },
            None => None,
        }
    } else {
        None
    }
}

} // verus!
