use vstd::prelude::*;

verus! {

/// The state of one cell of the grid, or of one position of a candidate line.
#[derive(Copy, Clone, Debug, PartialEq, Eq, Structural)]
pub enum CellState {
    Undecided,
    Empty,
    Filled,
}

/// Lengths of the consecutive filled runs of one row or column.
pub type Constraint = Vec<usize>;

/// Position-wise agreement of two cell states: the common value, or
/// `Undecided` where they differ.
pub open spec fn meet(a: CellState, b: CellState) -> CellState {
    if a == b {
        a
    } else {
        CellState::Undecided
    }
}

/// A known cell `known` accepts a candidate value `cand` when it carries no
/// information or holds that same value.
pub open spec fn accepts_spec(known: CellState, cand: CellState) -> bool {
    known == CellState::Undecided || known == cand
}

impl CellState {
    /// Folding helper for consensus: the value itself where both agree,
    /// `Undecided` otherwise.
    pub fn consensus_eq(&self, other: &CellState) -> (r: CellState)
        ensures
            r == meet(*self, *other),
    {
        if *self == *other {
            *self
        } else {
            CellState::Undecided
        }
    }

    /// Whether the grid's cell `self` admits the candidate's cell `other`.
    pub fn accepts(&self, other: &CellState) -> (r: bool)
        ensures
            r == accepts_spec(*self, *other),
    {
        *self == CellState::Undecided || *self == *other
    }
}

impl From<bool> for CellState {
    /// `Filled` for `true`, `Empty` for `false`.
    fn from(b: bool) -> (r: CellState) {
        if b {
            CellState::Filled
        } else {
            CellState::Empty
        }
    }
}

impl vstd::std_specs::convert::FromSpecImpl<bool> for CellState {
    open spec fn obeys_from_spec() -> bool {
        true
    }

    open spec fn from_spec(b: bool) -> CellState {
        if b {
            CellState::Filled
        } else {
            CellState::Empty
        }
    }
}

/// Character shown for a cell in the text rendering of a grid.
pub open spec fn cell_char(c: CellState) -> char {
    match c {
        CellState::Undecided => '?',
        CellState::Empty => ' ',
        CellState::Filled => '\u{2588}',
    }
}

/// Text rendering of the first `rows` rows of a `width`-wide row-major grid:
/// one character per cell and a newline after each row.
pub open spec fn render(cells: Seq<CellState>, width: nat, rows: nat) -> Seq<char>
    decreases rows,
{
    if rows == 0 {
        Seq::empty()
    } else {
        let y = (rows - 1) as nat;
        render(cells, width, y) + cells.subrange((y * width) as int, (y * width + width) as int).map_values(
            |c: CellState| cell_char(c),
        ) + seq!['\n']
    }
}

/// Row `y` of a `width`-wide row-major grid.
pub open spec fn row_of(cells: Seq<CellState>, width: nat, y: int) -> Seq<CellState> {
    cells.subrange(y * width, y * width + width)
}

/// Column `x` of a `width`-wide, `height`-high row-major grid.
pub open spec fn col_of(cells: Seq<CellState>, width: nat, height: nat, x: int) -> Seq<CellState> {
    Seq::new(height, |y: int| cells[y * width + x])
}

/// A puzzle: its dimensions, its cells in row-major order, and the run-length
/// constraint of each row and each column.
#[derive(Debug)]
pub struct Nonogram {
    pub width: usize,
    pub height: usize,
    pub cells: Vec<CellState>,
    pub rows: Vec<Constraint>,
    pub cols: Vec<Constraint>,
}

impl Nonogram {
    /// Number of columns.
    pub open spec fn spec_width(&self) -> nat {
        self.width as nat
    }

    /// Number of rows.
    pub open spec fn spec_height(&self) -> nat {
        self.height as nat
    }

    /// One constraint per row and per column, and one cell per position.
    pub open spec fn wf(&self) -> bool {
        &&& self.spec_width() * self.spec_height() <= usize::MAX
        &&& self.cells@.len() == self.spec_width() * self.spec_height()
        &&& self.rows@.len() == self.spec_height()
        &&& self.cols@.len() == self.spec_width()
    }

    /// Row-major position of the cell in column `x` and row `y`.
    pub open spec fn index_of(&self, x: int, y: int) -> int {
        y * self.spec_width() + x
    }

    /// The cell in column `x` and row `y`.
    pub open spec fn cell_spec(&self, x: int, y: int) -> CellState {
        self.cells@[self.index_of(x, y)]
    }

    /// The cells of row `y`, left to right.
    pub open spec fn row_spec(&self, y: int) -> Seq<CellState> {
        row_of(self.cells@, self.spec_width(), y)
    }

    /// The cells of column `x`, top to bottom.
    pub open spec fn col_spec(&self, x: int) -> Seq<CellState> {
        col_of(self.cells@, self.spec_width(), self.spec_height(), x)
    }

    /// The cells `s` fill the grid and meet every row and column constraint.
    pub open spec fn is_solution_cells(&self, s: Seq<CellState>) -> bool {
        crate::solver::is_solution(self.rows@, self.cols@, self.spec_width(), self.spec_height(), s)
    }

    /// Some assignment of the cells meets every constraint.
    pub open spec fn has_solution(&self) -> bool {
        exists|s: Seq<CellState>| self.is_solution_cells(s)
    }

    /// The grid's cells are a solution, and no other solution exists.
    pub open spec fn is_solved(&self) -> bool {
        &&& self.is_solution_cells(self.cells@)
        &&& forall|s: Seq<CellState>| #[trigger] self.is_solution_cells(s) ==> s == self.cells@
    }

    /// Some cell is undecided, and every solution holds each determined cell.
    pub open spec fn is_stuck(&self) -> bool {
        &&& exists|i: int| 0 <= i < self.cells@.len() && self.cells@[i] == CellState::Undecided
        &&& forall|s: Seq<CellState>|
            #[trigger] self.is_solution_cells(s) ==> crate::solver::agrees(self.cells@, s)
    }

    /// A puzzle of the given size and constraints with every cell undecided.
    pub fn new(width: usize, height: usize, cols: Vec<Constraint>, rows: Vec<Constraint>) -> (r:
        Nonogram)
        requires
            width * height <= usize::MAX,
        ensures
            r.spec_width() == width,
            r.spec_height() == height,
            r.cells@ == Seq::new((width * height) as nat, |i: int| CellState::Undecided),
            r.rows == rows,
            r.cols == cols,
    {
        let n: usize = width * height;
        let mut cells: Vec<CellState> = Vec::with_capacity(n);
        while cells.len() < n
            invariant
                cells.len() <= n,
                forall|i: int| 0 <= i < cells.len() ==> cells@[i] == CellState::Undecided,
            decreases n - cells.len(),
        {
            cells.push(CellState::Undecided);
        }
        proof {
            assert(cells@ =~= Seq::new(n as nat, |i: int| CellState::Undecided));
        }
        Nonogram { width, height, cells, rows, cols }
    }

    /// A builder with nothing set.
    pub fn builder() -> (r: NonogramBuilder)
        ensures
            r.width.is_none(),
            r.height.is_none(),
            r.rows_spec().len() == 0,
            r.cols_spec().len() == 0,
    {
        NonogramBuilder::new()
    }

    pub fn width(&self) -> (r: usize)
        ensures
            r == self.spec_width(),
    {
        self.width
    }

    pub fn height(&self) -> (r: usize)
        ensures
            r == self.spec_height(),
    {
        self.height
    }

    /// A copy of column `x`, top to bottom; `None` past the last column.
    /// Columns are not contiguous in storage, so they are gathered.
    pub fn column(&self, x: usize) -> (r: Option<Vec<CellState>>)
        requires
            self.wf(),
        ensures
            x >= self.spec_width() ==> r.is_none(),
            x < self.spec_width() ==> r.is_some() && r.unwrap()@ == self.col_spec(x as int),
    {
        if x >= self.width {
            None
        } else {
            let mut ret: Vec<CellState> = Vec::with_capacity(self.height);
            let mut y: usize = 0;
            while y < self.height
                invariant
                    self.wf(),
                    x < self.spec_width(),
                    y <= self.spec_height(),
                    ret@.len() == y,
                    forall|j: int| 0 <= j < y ==> ret@[j] == self.cell_spec(x as int, j),
                decreases self.spec_height() - y,
            {
                ret.push(self.get(x, y));
                y = y + 1;
            }
            proof {
                assert(ret@ =~= self.col_spec(x as int));
            }
            Some(ret)
        }
    }

    /// Row `y` as a contiguous slice; `None` past the last row.
    pub fn row(&self, y: usize) -> (r: Option<&[CellState]>)
        requires
            self.wf(),
        ensures
            y >= self.spec_height() ==> r.is_none(),
            y < self.spec_height() ==> r.is_some() && r.unwrap()@ == self.row_spec(y as int),
    {
        if y >= self.height {
            None
        } else {
            proof {
                lemma_cell_index(self.spec_width(), self.spec_height(), self.spec_width(), y as nat);
            }
            let start = self.xy_to_index(0, y);
            let end = self.xy_to_index(self.width, y);
            Some(&self.cells.as_slice()[start..end])
        }
    }

    /// Row-major position of the cell in column `x` and row `y`.
    pub fn xy_to_index(&self, x: usize, y: usize) -> (r: usize)
        requires
            y * self.spec_width() + x <= usize::MAX,
        ensures
            r == self.index_of(x as int, y as int),
    {
        y * self.width + x
    }

    /// The cell in column `x` and row `y`.
    pub fn get(&self, x: usize, y: usize) -> (r: CellState)
        requires
            self.wf(),
            x < self.spec_width(),
            y < self.spec_height(),
        ensures
            r == self.cell_spec(x as int, y as int),
    {
        proof {
            lemma_cell_index(self.spec_width(), self.spec_height(), x as nat, y as nat);
        }
        self.cells[self.xy_to_index(x, y)]
    }

    /// Sets the cell in column `x` and row `y`, leaving everything else.
    pub fn set(&mut self, x: usize, y: usize, c: CellState)
        requires
            old(self).wf(),
            x < old(self).spec_width(),
            y < old(self).spec_height(),
        ensures
            final(self).wf(),
            final(self).spec_width() == old(self).spec_width(),
            final(self).spec_height() == old(self).spec_height(),
            final(self).rows == old(self).rows,
            final(self).cols == old(self).cols,
            final(self).cells@ == old(self).cells@.update(old(self).index_of(x as int, y as int), c),
    {
        proof {
            lemma_cell_index(self.spec_width(), self.spec_height(), x as nat, y as nat);
        }
        let i = self.xy_to_index(x, y);
        self.cells.set(i, c);
    }

    /// The grid as text: `'?'` for undecided, `' '` for empty and a full
    /// block for filled cells, one line per row.
    pub fn as_text(&self) -> (r: String)
        requires
            self.wf(),
        ensures
            r@ == render(self.cells@, self.spec_width(), self.spec_height()),
    {
        let mut ret = String::new();
        let mut y: usize = 0;
        while y < self.height
            invariant
                self.wf(),
                y <= self.spec_height(),
                ret@ == render(self.cells@, self.spec_width(), y as nat),
            decreases self.spec_height() - y,
        {
            let ghost before = ret@;
            proof {
                lemma_cell_index(self.spec_width(), self.spec_height(), self.spec_width(), y as nat);
            }
            let mut x: usize = 0;
            while x < self.width
                invariant
                    self.wf(),
                    y < self.spec_height(),
                    x <= self.spec_width(),
                    ret@ == before + self.row_spec(y as int).subrange(0, x as int).map_values(
                        |c: CellState| cell_char(c),
                    ),
                    0 <= self.index_of(0, y as int),
                    self.index_of(self.spec_width() as int, y as int) <= self.cells@.len(),
                decreases self.spec_width() - x,
            {
                let c = self.get(x, y);
                match c {
                    CellState::Undecided => ret.append("?"),
                    CellState::Empty => ret.append(" "),
                    CellState::Filled => ret.append("\u{2588}"),
                }
                proof {
                    reveal_strlit("?");
                    reveal_strlit(" ");
                    reveal_strlit("\u{2588}");
                    assert(self.row_spec(y as int).subrange(0, x + 1).map_values(
                        |c: CellState| cell_char(c),
                    ) =~= self.row_spec(y as int).subrange(0, x as int).map_values(
                        |c: CellState| cell_char(c),
                    ).push(cell_char(c)));
                }
                x = x + 1;
            }
            ret.append("\n");
            proof {
                reveal_strlit("\n");
                assert(self.row_spec(y as int).subrange(0, self.spec_width() as int)
                    =~= self.row_spec(y as int));
            }
            y = y + 1;
        }
        ret
    }

    /// Sets every cell back to `Undecided`; dimensions and constraints stay.
    pub fn clear_solution(&mut self)
        requires
            old(self).wf(),
        ensures
            final(self).wf(),
            final(self).spec_width() == old(self).spec_width(),
            final(self).spec_height() == old(self).spec_height(),
            final(self).rows == old(self).rows,
            final(self).cols == old(self).cols,
            final(self).cells@ == Seq::new(old(self).cells@.len(), |i: int| CellState::Undecided),
    {
        let mut i: usize = 0;
        while i < self.cells.len()
            invariant
                self.wf(),
                self.spec_width() == old(self).spec_width(),
                self.spec_height() == old(self).spec_height(),
                self.rows == old(self).rows,
                self.cols == old(self).cols,
                self.cells@.len() == old(self).cells@.len(),
                forall|j: int| 0 <= j < i ==> self.cells@[j] == CellState::Undecided,
            decreases self.cells@.len() - i,
        {
            self.cells.set(i, CellState::Undecided);
            i = i + 1;
        }
        proof {
            assert(self.cells@ =~= Seq::new(old(self).cells@.len(), |i: int| CellState::Undecided));
        }
    }
}

/// In a `width` by `height` grid, the row-major position of column `x`
/// (up to `width`, one past the last) in row `y` lies within the cells.
pub proof fn lemma_cell_index(width: nat, height: nat, x: nat, y: nat)
    requires
        x <= width,
        y < height,
    ensures
        0 <= y * width + x <= width * height,
        x < width ==> y * width + x < width * height,
{
    assert(y * width + x <= width * height) by (nonlinear_arith)
        requires
            x <= width,
            y < height,
    ;
    assert(x < width ==> y * width + x < width * height) by (nonlinear_arith)
        requires
            y < height,
    ;
}

/// Why a builder refused to produce a puzzle.
#[derive(Copy, Clone, Debug, PartialEq, Eq, Structural)]
pub enum BuilderError {
    /// The cell count does not fit in a `usize`.
    Invalid,
    WidthAlreadySet,
    HeightAlreadySet,
    MissingWidth,
    MissingHeight,
    /// The number of row constraints differs from the height.
    RowCountMismatch,
    /// The number of column constraints differs from the width.
    ColumnCountMismatch,
}

/// The first check that the parts of a puzzle fail, in the order width set,
/// height set, row count, column count; `None` when they pass.
pub open spec fn builder_check(
    width: Option<usize>,
    height: Option<usize>,
    nrows: nat,
    ncols: nat,
) -> Option<BuilderError> {
    if width.is_none() {
        Some(BuilderError::MissingWidth)
    } else if height.is_none() {
        Some(BuilderError::MissingHeight)
    } else if height.unwrap() != nrows {
        Some(BuilderError::RowCountMismatch)
    } else if width.unwrap() != ncols {
        Some(BuilderError::ColumnCountMismatch)
    } else {
        None
    }
}

/// Why the parts of a puzzle cannot be built: a failed check, or a cell
/// count too large for a `usize`; `None` when they can.
pub open spec fn build_error(
    width: Option<usize>,
    height: Option<usize>,
    nrows: nat,
    ncols: nat,
) -> Option<BuilderError> {
    match builder_check(width, height, nrows, ncols) {
        Some(e) => Some(e),
        None => if width.unwrap() * height.unwrap() > usize::MAX {
            Some(BuilderError::Invalid)
        } else {
            None
        },
    }
}

/// Collects a puzzle's dimensions and constraints, each dimension set once.
pub struct NonogramBuilder {
    pub width: Option<usize>,
    pub height: Option<usize>,
    pub rows: Vec<Constraint>,
    pub cols: Vec<Constraint>,
}

impl NonogramBuilder {
    /// The row constraints pushed so far, in order.
    pub open spec fn rows_spec(&self) -> Seq<Constraint> {
        self.rows@
    }

    /// The column constraints pushed so far, in order.
    pub open spec fn cols_spec(&self) -> Seq<Constraint> {
        self.cols@
    }

    /// Whether the collected parts make a consistent puzzle.
    pub open spec fn valid_spec(&self) -> bool {
        &&& self.width.is_some()
        &&& self.height.is_some()
        &&& self.height.unwrap() == self.rows_spec().len()
        &&& self.width.unwrap() == self.cols_spec().len()
    }

    pub fn new() -> (r: NonogramBuilder)
        ensures
            r.width.is_none(),
            r.height.is_none(),
            r.rows_spec().len() == 0,
            r.cols_spec().len() == 0,
    {
        NonogramBuilder { width: None, height: None, rows: Vec::new(), cols: Vec::new() }
    }

    /// Sets the width, which may be set only once.
    pub fn width(&mut self, width: usize) -> (r: Result<&mut Self, BuilderError>)
        ensures
            old(self).width.is_some() ==> r == Err::<&mut Self, BuilderError>(
                BuilderError::WidthAlreadySet,
            ) && *final(self) == *old(self),
            old(self).width.is_none() ==> r.is_ok() && *r.unwrap() == (NonogramBuilder {
                width: Some(width),
                ..*old(self)
            }) && *final(self) == *final(r.unwrap()),
    {
        match self.width {
            Some(_) => Err(BuilderError::WidthAlreadySet),
            None => {
                self.width = Some(width);
                Ok(self)
            },
        }
    }

    /// Sets the height, which may be set only once.
    pub fn height(&mut self, height: usize) -> (r: Result<&mut Self, BuilderError>)
        ensures
            old(self).height.is_some() ==> r == Err::<&mut Self, BuilderError>(
                BuilderError::HeightAlreadySet,
            ) && *final(self) == *old(self),
            old(self).height.is_none() ==> r.is_ok() && *r.unwrap() == (NonogramBuilder {
                height: Some(height),
                ..*old(self)
            }) && *final(self) == *final(r.unwrap()),
    {
        match self.height {
            Some(_) => Err(BuilderError::HeightAlreadySet),
            None => {
                self.height = Some(height);
                Ok(self)
            },
        }
    }

    /// Appends the constraint of the next row.
    pub fn push_row_constraint(&mut self, constraint: Constraint) -> (r: &mut Self)
        ensures
            r.width == old(self).width,
            r.height == old(self).height,
            r.cols == old(self).cols,
            r.rows@ == old(self).rows@.push(constraint),
            *final(self) == *final(r),
    {
        self.rows.push(constraint);
        self
    }

    /// Appends the constraint of the next column.
    pub fn push_col_constraint(&mut self, constraint: Constraint) -> (r: &mut Self)
        ensures
            r.width == old(self).width,
            r.height == old(self).height,
            r.rows == old(self).rows,
            r.cols@ == old(self).cols@.push(constraint),
            *final(self) == *final(r),
    {
        self.cols.push(constraint);
        self
    }

    /// `Ok` exactly when both dimensions are set and agree with the number
    /// of column and row constraints.
    pub fn validate(&self) -> (r: Result<(), BuilderError>)
        ensures
            r.is_ok() <==> self.valid_spec(),
            r.is_ok() <==> builder_check(self.width, self.height, self.rows@.len(), self.cols@.len())
                is None,
            r.is_err() ==> r == Err::<(), BuilderError>(
                builder_check(self.width, self.height, self.rows@.len(), self.cols@.len()).unwrap(),
            ),
    {
        match (self.width, self.height) {
            (None, _) => Err(BuilderError::MissingWidth),
            (_, None) => Err(BuilderError::MissingHeight),
            (Some(w), Some(h)) => {
                if h != self.rows.len() {
                    Err(BuilderError::RowCountMismatch)
                } else if w != self.cols.len() {
                    Err(BuilderError::ColumnCountMismatch)
                } else {
                    Ok(())
                }
            },
        }
    }

    /// The puzzle, with every cell undecided, when the parts are consistent
    /// and the cell count fits in a `usize`; `Invalid` otherwise.
    pub fn build(self) -> (r: Result<Nonogram, BuilderError>)
        ensures
            r.is_ok() <==> build_error(self.width, self.height, self.rows@.len(), self.cols@.len())
                is None,
            r.is_err() ==> r == Err::<Nonogram, BuilderError>(
                build_error(self.width, self.height, self.rows@.len(), self.cols@.len()).unwrap(),
            ),
            r.is_ok() ==> {
                let n = r.unwrap();
                &&& n.wf()
                &&& n.width == self.width.unwrap()
                &&& n.height == self.height.unwrap()
                &&& n.rows == self.rows
                &&& n.cols == self.cols
                &&& n.cells@ == Seq::new(n.cells@.len(), |i: int| CellState::Undecided)
            },
    {
        match self.validate() {
            Err(e) => Err(e),
            Ok(()) => {
                let w = self.width.unwrap();
                let h = self.height.unwrap();
                match w.checked_mul(h) {
                    None => Err(BuilderError::Invalid),
                    Some(_) => Ok(Nonogram::new(w, h, self.cols, self.rows)),
                }
            },
        }
    }
} // impl NonogramBuilder

impl Default for NonogramBuilder {
    fn default() -> (r: Self)
        ensures
            r.width.is_none(),
            r.height.is_none(),
            r.rows@.len() == 0,
            r.cols@.len() == 0,
    {
        NonogramBuilder::new()
    }
}

} // verus!
