//! A sparse grid layout: a cursor places widgets in cells (with spans and
//! wraps), and a linear constraint system over margins, gaps and cell sizes
//! gives every cell its offset and size inside the container.
use vstd::prelude::*;
use crate::gui::WidgetHandle;
use crate::solver::{add_constraint, add_edit_variable, get_value, suggest_value};
use cassowary::{RelationalOperator, Solver, Variable};

verus! {

/// A cell of the grid. Positions are ordered row-major (row first, then
/// column), which is the order of the fields.
#[derive(Clone, Copy, Debug, PartialEq, Eq, PartialOrd, Ord, Hash)]
pub struct LayoutPosition {
    pub row: u32,
    pub col: u32,
}

impl LayoutPosition {
    /// The cell at column `icol`, row `irow`.
    pub fn new(icol: u32, irow: u32) -> (r: LayoutPosition)
        ensures
            r.col == icol,
            r.row == irow,
    {
        LayoutPosition { row: irow, col: icol }
    }
}

/// Whether `a` comes strictly before `b` in row-major order.
pub open spec fn before(a: LayoutPosition, b: LayoutPosition) -> bool {
    a.row < b.row || (a.row == b.row && a.col < b.col)
}

/// A placed widget with its preferred size and its solved geometry.
#[derive(Clone, Copy, Debug)]
pub struct Component {
    pub leading: u32,
    pub width: u32,
    pub top: u32,
    pub height: u32,
    pub standard_width: u32,
    pub standard_height: u32,
    pub item: WidgetHandle,
}

/// A cell taken by a neighbouring component's span.
#[derive(Clone, Copy, Debug)]
pub struct Span {
    pub leading: u32,
    pub width: u32,
    pub top: u32,
    pub height: u32,
    pub start_position: LayoutPosition,
}

#[derive(Clone, Copy, Debug)]
pub enum Cell {
    Component(Component),
    Span(Span),
}

/// A component cell for `item` with its preferred size and no geometry yet.
pub fn new_component(item: WidgetHandle, standard_width: u32, standard_height: u32) -> (r: Cell)
    ensures
        r == Cell::Component(
            Component {
                item,
                standard_width,
                standard_height,
                leading: 0,
                width: 0,
                top: 0,
                height: 0,
            },
        ),
{
    Cell::Component(
        Component {
            item: item,
            standard_width: standard_width,
            standard_height: standard_height,
            leading: 0,
            width: 0,
            top: 0,
            height: 0,
        },
    )
}

/// A placeholder cell for a span of `x` by `y` cells.
pub fn new_span(x: u32, y: u32) -> (r: Cell)
    ensures
        r == Cell::Span(
            Span { leading: 0, width: 0, top: 0, height: 0, start_position: LayoutPosition { row: y, col: x } },
        ),
{
    Cell::Span(Span { leading: 0, width: 0, top: 0, height: 0, start_position: LayoutPosition::new(x, y) })
}

/// The solved geometry of a cell: leading, width, top, height.
pub open spec fn geometry(c: Cell) -> (u32, u32, u32, u32) {
    match c {
        Cell::Component(k) => (k.leading, k.width, k.top, k.height),
        Cell::Span(k) => (k.leading, k.width, k.top, k.height),
    }
}

/// `c` with its geometry replaced by `(l, w, t, h)`.
pub open spec fn with_geometry(c: Cell, l: u32, w: u32, t: u32, h: u32) -> Cell {
    match c {
        Cell::Component(k) => Cell::Component(Component { leading: l, width: w, top: t, height: h, ..k }),
        Cell::Span(k) => Cell::Span(Span { leading: l, width: w, top: t, height: h, ..k }),
    }
}

impl Cell {
    /// Sets the leading (horizontal) offset.
    pub fn set_leading(&mut self, x: u32)
        ensures
            ({
                let (_, w, t, h) = geometry(*old(self));
                *final(self) == with_geometry(*old(self), x, w, t, h)
            }),
    {
        match self {
            Cell::Component(c) => c.leading = x,
            Cell::Span(s) => s.leading = x,
        }
    }

    /// Sets the width.
    pub fn set_width(&mut self, x: u32)
        ensures
            ({
                let (l, _, t, h) = geometry(*old(self));
                *final(self) == with_geometry(*old(self), l, x, t, h)
            }),
    {
        match self {
            Cell::Component(c) => c.width = x,
            Cell::Span(s) => s.width = x,
        }
    }

    /// Sets the top (vertical) offset.
    pub fn set_top(&mut self, x: u32)
        ensures
            ({
                let (l, w, _, h) = geometry(*old(self));
                *final(self) == with_geometry(*old(self), l, w, x, h)
            }),
    {
        match self {
            Cell::Component(c) => c.top = x,
            Cell::Span(s) => s.top = x,
        }
    }

    /// Sets the height.
    pub fn set_height(&mut self, x: u32)
        ensures
            ({
                let (l, w, t, _) = geometry(*old(self));
                *final(self) == with_geometry(*old(self), l, w, t, x)
            }),
    {
        match self {
            Cell::Component(c) => c.height = x,
            Cell::Span(s) => s.height = x,
        }
    }

    /// The height the layout aims at for this cell: the component's
    /// preferred height, or 12 for a span placeholder.
    pub fn get_preferred_height(&self) -> (r: u32)
        ensures
            r == match *self {
                Cell::Component(c) => c.standard_height,
                Cell::Span(_) => 12,
            },
    {
        match self {
            Cell::Component(c) => c.standard_height,
            Cell::Span(_) => 12,
        }
    }
}

/// One step of a placement script.
#[derive(Clone, Copy, Debug, PartialEq, Eq)]
pub enum Action {
    Add { item: WidgetHandle },
    Wrap,
    Span(u32, u32),
}

/// A placement script, built by chaining `add`, `span` and `wrap`.
pub struct AccessLayout {
    actions: Vec<Action>,
}

/// What is left of the builder after a `wrap`: only more wraps.
pub struct WrapOnlyAccessLayout<'a> {
    pub access_layout: &'a mut AccessLayout,
}

impl<'a> WrapOnlyAccessLayout<'a> {
    pub open spec fn actions(&self) -> Seq<Action> {
        (*self.access_layout).actions()
    }

    /// Restricts `al` to wraps.
    pub fn new(al: &'a mut AccessLayout) -> (r: WrapOnlyAccessLayout<'a>)
        ensures
            r.actions() == old(al).actions(),
            *final(al) == *final(r.access_layout),
    {
        WrapOnlyAccessLayout { access_layout: al }
    }

    /// Starts a new row.
    pub fn wrap(&mut self)
        ensures
            final(self).actions() == old(self).actions().push(Action::Wrap),
            *final(final(self).access_layout) == *final(old(self).access_layout),
    {
        self.access_layout.actions.push(Action::Wrap);
    }
}

impl AccessLayout {
    pub closed spec fn actions(&self) -> Seq<Action> {
        self.actions@
    }

    /// An empty script.
    pub fn new() -> (r: AccessLayout)
        ensures
            r.actions() == Seq::<Action>::empty(),
    {
        AccessLayout { actions: Vec::new() }
    }

    /// Places `item` in the next free cell.
    pub fn add(&mut self, item: WidgetHandle) -> (r: &mut AccessLayout)
        ensures
            r.actions() == old(self).actions().push(Action::Add { item }),
            *final(self) == *final(r),
    {
        self.actions.push(Action::Add { item });
        self
    }

    /// Lets the last placed widget span `x` by `y` cells.
    pub fn span(&mut self, x: u32, y: u32) -> (r: &mut AccessLayout)
        ensures
            r.actions() == old(self).actions().push(Action::Span(x, y)),
            *final(self) == *final(r),
    {
        self.actions.push(Action::Span(x, y));
        self
    }

    /// Starts a new row; after it only more wraps can follow in the chain.
    pub fn wrap(&mut self) -> (r: WrapOnlyAccessLayout<'_>)
        ensures
            r.actions() == old(self).actions().push(Action::Wrap),
            *final(self) == *final(r.access_layout),
    {
        self.actions.push(Action::Wrap);
        WrapOnlyAccessLayout::new(self)
    }
}


/// Constraint strengths on the solver's scale: each tier outweighs any
/// number of constraints of the tiers below it.
pub const REQUIRED: u32 = 1_001_001_000;
pub const STRONG: u32 = 1_000_000;
pub const MEDIUM: u32 = 1_000;
pub const WEAK: u32 = 1;

/// The width and height the container is steered toward.
pub const DEFAULT_CONTAINER_SIZE: u32 = 300;
/// Upper bound of the left and right margins, and the top margin's value.
pub const MARGIN: u32 = 12;
/// The gap preferred between columns and between rows.
pub const GAP: u32 = 8;
/// The value the bottom margins are steered toward, so that they take up
/// what the rows leave.
pub const BOTTOM_MARGIN_SUGGESTION: u32 = 1_000_000;

/// The solver variables of one grid: per row its margins, column widths and
/// the gaps between columns; per column its margins; per row and column a
/// height and the gap below it; and the container's size.
pub struct SystemVars {
    pub container_width: Variable,
    pub container_height: Variable,
    pub top: Vec<Variable>,
    pub bottom: Vec<Variable>,
    pub left: Vec<Variable>,
    pub right: Vec<Variable>,
    pub width: Vec<Vec<Variable>>,
    pub height: Vec<Vec<Variable>>,
    pub gap: Vec<Vec<Variable>>,
    pub below: Vec<Vec<Variable>>,
}

/// The solved values of a grid's system, in the shape of `SystemVars`.
pub struct Solution {
    pub top: Vec<u32>,
    pub left: Vec<u32>,
    pub width: Vec<Vec<u32>>,
    pub height: Vec<Vec<u32>>,
    pub gap: Vec<Vec<u32>>,
    pub below: Vec<Vec<u32>>,
}

/// `v` has one variable per margin, cell and gap of a `rows` by `cols` grid.
pub open spec fn vars_shaped(v: SystemVars, rows: int, cols: int) -> bool {
    &&& v.top@.len() == cols
    &&& v.bottom@.len() == cols
    &&& v.left@.len() == rows
    &&& v.right@.len() == rows
    &&& v.width@.len() == rows
    &&& v.height@.len() == rows
    &&& v.gap@.len() == rows
    &&& v.below@.len() == rows - 1
    &&& forall|r: int| 0 <= r < rows ==> (#[trigger] v.width@[r])@.len() == cols
    &&& forall|r: int| 0 <= r < rows ==> (#[trigger] v.height@[r])@.len() == cols
    &&& forall|r: int| 0 <= r < rows ==> (#[trigger] v.gap@[r])@.len() == cols - 1
    &&& forall|r: int| 0 <= r < rows - 1 ==> (#[trigger] v.below@[r])@.len() == cols
}

/// `v` has one value per margin, cell and gap of a `rows` by `cols` grid.
pub open spec fn solution_shaped(v: Solution, rows: int, cols: int) -> bool {
    &&& v.top@.len() == cols
    &&& v.left@.len() == rows
    &&& v.width@.len() == rows
    &&& v.height@.len() == rows
    &&& v.gap@.len() == rows
    &&& v.below@.len() == rows - 1
    &&& forall|r: int| 0 <= r < rows ==> (#[trigger] v.width@[r])@.len() == cols
    &&& forall|r: int| 0 <= r < rows ==> (#[trigger] v.height@[r])@.len() == cols
    &&& forall|r: int| 0 <= r < rows ==> (#[trigger] v.gap@[r])@.len() == cols - 1
    &&& forall|r: int| 0 <= r < rows - 1 ==> (#[trigger] v.below@[r])@.len() == cols
}

/// `n` fresh variables.
fn fresh_vars(n: usize) -> (r: Vec<Variable>)
    ensures
        r@.len() == n,
{
    let mut v: Vec<Variable> = Vec::new();
    let mut i: usize = 0;
    while i < n
        invariant
            i <= n,
            v@.len() == i,
        decreases n - i,
    {
        v.push(Variable::new());
        i = i + 1;
    }
    v
}

/// `rows` rows of `n` fresh variables each.
fn fresh_table(rows: usize, n: usize) -> (r: Vec<Vec<Variable>>)
    ensures
        r@.len() == rows,
        forall|i: int| 0 <= i < rows ==> (#[trigger] r@[i])@.len() == n,
{
    let mut v: Vec<Vec<Variable>> = Vec::new();
    let mut i: usize = 0;
    while i < rows
        invariant
            i <= rows,
            v@.len() == i,
            forall|k: int| 0 <= k < i ==> (#[trigger] v@[k])@.len() == n,
        decreases rows - i,
    {
        v.push(fresh_vars(n));
        i = i + 1;
    }
    v
}

/// Fresh variables for a `rows` by `cols` grid.
fn make_vars(rows: usize, cols: usize) -> (v: SystemVars)
    requires
        rows >= 1,
        cols >= 1,
    ensures
        vars_shaped(v, rows as int, cols as int),
{
    SystemVars {
        container_width: Variable::new(),
        container_height: Variable::new(),
        top: fresh_vars(cols),
        bottom: fresh_vars(cols),
        left: fresh_vars(rows),
        right: fresh_vars(rows),
        width: fresh_table(rows, cols),
        height: fresh_table(rows, cols),
        gap: fresh_table(rows, cols - 1),
        below: fresh_table(rows - 1, cols),
    }
}

/// Makes `v` an edit variable of weak strength and steers it toward `value`.
fn edit(solver: &mut Solver, v: Variable, value: u32) -> (r: Result<(), LayoutError>)
    ensures
        r is Err ==> r == Err::<(), LayoutError>(LayoutError::Solver),
{
    if add_edit_variable(solver, v, WEAK).is_err() {
        return Err(LayoutError::Solver);
    }
    if suggest_value(solver, v, value).is_err() {
        return Err(LayoutError::Solver);
    }
    Ok(())
}

/// Adds `sum(terms) + constant  op  0` at `strength`.
fn constrain(
    solver: &mut Solver,
    terms: &Vec<(Variable, i32)>,
    constant: i32,
    op: RelationalOperator,
    strength: u32,
) -> (r: Result<(), LayoutError>)
    ensures
        r is Err ==> r == Err::<(), LayoutError>(LayoutError::Solver),
{
    if add_constraint(solver, terms, constant, op, strength).is_err() {
        return Err(LayoutError::Solver);
    }
    Ok(())
}

/// Adds `a - b  op  0` at `strength`.
fn constrain_pair(solver: &mut Solver, a: Variable, b: Variable, op: RelationalOperator, strength: u32) -> (r: Result<
    (),
    LayoutError,
>)
    ensures
        r is Err ==> r == Err::<(), LayoutError>(LayoutError::Solver),
{
    let mut terms: Vec<(Variable, i32)> = Vec::new();
    terms.push((a, 1));
    terms.push((b, -1));
    constrain(solver, &terms, 0, op, strength)
}

/// Adds `a - bound  op  0` at `strength`.
fn constrain_bound(solver: &mut Solver, a: Variable, bound: u32, op: RelationalOperator, strength: u32) -> (r:
    Result<(), LayoutError>)
    requires
        bound <= i32::MAX,
    ensures
        r is Err ==> r == Err::<(), LayoutError>(LayoutError::Solver),
{
    let mut terms: Vec<(Variable, i32)> = Vec::new();
    terms.push((a, 1));
    constrain(solver, &terms, -(bound as i32), op, strength)
}

/// Reads the solved value of every variable of `v`.
fn read_solution(solver: &Solver, v: &SystemVars, rows: usize, cols: usize) -> (sol: Solution)
    requires
        rows >= 1,
        cols >= 1,
        vars_shaped(*v, rows as int, cols as int),
    ensures
        solution_shaped(sol, rows as int, cols as int),
{
    Solution {
        top: read_values(solver, &v.top),
        left: read_values(solver, &v.left),
        width: read_table(solver, &v.width),
        height: read_table(solver, &v.height),
        gap: read_table(solver, &v.gap),
        below: read_table(solver, &v.below),
    }
}

/// The solved value of each variable of `v`.
fn read_values(solver: &Solver, v: &Vec<Variable>) -> (r: Vec<u32>)
    ensures
        r@.len() == v@.len(),
{
    let mut out: Vec<u32> = Vec::new();
    let mut i: usize = 0;
    while i < v.len()
        invariant
            i <= v@.len(),
            out@.len() == i,
        decreases v@.len() - i,
    {
        out.push(get_value(solver, v[i]));
        i = i + 1;
    }
    out
}

/// The solved value of each variable of each row of `v`.
fn read_table(solver: &Solver, v: &Vec<Vec<Variable>>) -> (r: Vec<Vec<u32>>)
    ensures
        r@.len() == v@.len(),
        forall|i: int| 0 <= i < v@.len() ==> (#[trigger] r@[i])@.len() == v@[i]@.len(),
{
    let mut out: Vec<Vec<u32>> = Vec::new();
    let mut i: usize = 0;
    while i < v.len()
        invariant
            i <= v@.len(),
            out@.len() == i,
            forall|k: int| 0 <= k < i ==> (#[trigger] out@[k])@.len() == v@[k]@.len(),
        decreases v@.len() - i,
    {
        out.push(read_values(solver, &v[i]));
        i = i + 1;
    }
    out
}

/// A variable of a grid's constraint system: the container's size, a
/// column's top or bottom margin, a row's left or right margin, or the
/// width, height, trailing gap or gap below of the cell at (row, column).
#[derive(Clone, Copy, Debug, PartialEq, Eq)]
pub enum VarRef {
    ContainerWidth,
    ContainerHeight,
    Top(usize),
    Bottom(usize),
    Left(usize),
    Right(usize),
    Width(usize, usize),
    Height(usize, usize),
    Gap(usize, usize),
    Below(usize, usize),
}

/// `sum(k * v for (v, k) in terms) + constant  op  0`, held at `strength`.
#[derive(Debug)]
pub struct LinearConstraint {
    pub terms: Vec<(VarRef, i32)>,
    pub constant: i32,
    pub op: RelationalOperator,
    pub strength: u32,
}

/// One request to the solver: make a variable an edit variable (weak) and
/// steer it toward a value, or add a constraint.
#[derive(Debug)]
pub enum Request {
    Edit(VarRef, u32),
    Constrain(LinearConstraint),
}

/// A request as plain values.
pub enum SpecRequest {
    Edit(VarRef, u32),
    Constrain(Seq<(VarRef, i32)>, int, RelationalOperator, u32),
}

pub open spec fn req_view(r: Request) -> SpecRequest {
    match r {
        Request::Edit(v, x) => SpecRequest::Edit(v, x),
        Request::Constrain(c) => SpecRequest::Constrain(c.terms@, c.constant as int, c.op, c.strength),
    }
}

pub open spec fn views(v: Seq<Request>) -> Seq<SpecRequest> {
    v.map_values(|r: Request| req_view(r))
}

/// `a - b  op  0` at `st`.
pub open spec fn pair_req(a: VarRef, b: VarRef, op: RelationalOperator, st: u32) -> SpecRequest {
    SpecRequest::Constrain(seq![(a, 1i32), (b, -1i32)], 0, op, st)
}

/// `a - bound  op  0` at `st`.
pub open spec fn bound_req(a: VarRef, bound: int, op: RelationalOperator, st: u32) -> SpecRequest {
    SpecRequest::Constrain(seq![(a, 1i32)], -bound, op, st)
}

/// The height the layout aims at for a cell: a component's preferred
/// height, or 12 for a span placeholder.
pub open spec fn cell_height(c: Cell) -> u32 {
    match c {
        Cell::Component(k) => k.standard_height,
        Cell::Span(_) => 12,
    }
}

/// The height the layout aims at for (column `c`, row `r`): 0 where no cell
/// is.
pub open spec fn pref_height(s: Seq<Slot>, c: int, r: int) -> u32 {
    if occupied(s, c, r) {
        cell_height(cell_map(s)[(c, r)])
    } else {
        0
    }
}

/// Every bottom margin is an edit variable steered toward a large value.
pub open spec fn bottom_edits(n: int) -> Seq<SpecRequest>
    decreases n,
{
    if n <= 0 {
        Seq::empty()
    } else {
        bottom_edits(n - 1).push(SpecRequest::Edit(VarRef::Bottom((n - 1) as usize), BOTTOM_MARGIN_SUGGESTION))
    }
}

/// For the first `n` cells of row `r`: the height steered toward the cell's
/// preferred height, and the trailing gap (all but the last column) toward 8.
pub open spec fn row_edits(s: Seq<Slot>, r: int, cols: int, n: int) -> Seq<SpecRequest>
    decreases n,
{
    if n <= 0 {
        Seq::empty()
    } else {
        let c = n - 1;
        let e = row_edits(s, r, cols, n - 1).push(
            SpecRequest::Edit(VarRef::Height(r as usize, c as usize), pref_height(s, c, r)),
        );
        if n < cols {
            e.push(SpecRequest::Edit(VarRef::Gap(r as usize, c as usize), GAP))
        } else {
            e
        }
    }
}

/// The widths and trailing gaps of the first `n` columns of row `r`.
pub open spec fn width_terms(r: int, cols: int, n: int) -> Seq<(VarRef, i32)>
    decreases n,
{
    if n <= 0 {
        Seq::empty()
    } else {
        let c = n - 1;
        let t = width_terms(r, cols, n - 1).push((VarRef::Width(r as usize, c as usize), 1i32));
        if n < cols {
            t.push((VarRef::Gap(r as usize, c as usize), 1i32))
        } else {
            t
        }
    }
}

/// Adjacent widths of row `r` equal (strong), for the first `n` pairs.
pub open spec fn width_eqs(r: int, n: int) -> Seq<SpecRequest>
    decreases n,
{
    if n <= 0 {
        Seq::empty()
    } else {
        width_eqs(r, n - 1).push(
            pair_req(
                VarRef::Width(r as usize, (n - 1) as usize),
                VarRef::Width(r as usize, n as usize),
                RelationalOperator::Equal,
                STRONG,
            ),
        )
    }
}

/// Adjacent gaps of row `r` equal and at most 8 (strong), for the first `n`
/// pairs.
pub open spec fn gap_reqs(r: int, n: int) -> Seq<SpecRequest>
    decreases n,
{
    if n <= 0 {
        Seq::empty()
    } else {
        let c = n - 1;
        gap_reqs(r, n - 1).push(
            pair_req(
                VarRef::Gap(r as usize, c as usize),
                VarRef::Gap(r as usize, n as usize),
                RelationalOperator::Equal,
                STRONG,
            ),
        ).push(bound_req(VarRef::Gap(r as usize, c as usize), GAP as int, RelationalOperator::LessOrEqual, STRONG))
    }
}

/// Everything that row `r` asks of the solver: its edits; margins, widths
/// and gaps filling the container's width (required); margins of at most 12,
/// equal widths, equal gaps of at most 8 (strong).
pub open spec fn row_reqs(s: Seq<Slot>, r: int, cols: int) -> Seq<SpecRequest> {
    let sum = seq![(VarRef::Left(r as usize), 1i32), (VarRef::Right(r as usize), 1i32)] + width_terms(r, cols, cols).push(
        (VarRef::ContainerWidth, -1i32),
    );
    row_edits(s, r, cols, cols) + seq![
        SpecRequest::Constrain(sum, 0, RelationalOperator::Equal, REQUIRED),
        bound_req(VarRef::Left(r as usize), MARGIN as int, RelationalOperator::LessOrEqual, STRONG),
        bound_req(VarRef::Right(r as usize), MARGIN as int, RelationalOperator::LessOrEqual, STRONG),
    ] + (if cols > 1 {
        width_eqs(r, cols - 1) + gap_reqs(r, cols - 2)
    } else {
        Seq::empty()
    })
}

/// The requests of the first `n` rows.
pub open spec fn rows_reqs(s: Seq<Slot>, cols: int, n: int) -> Seq<SpecRequest>
    decreases n,
{
    if n <= 0 {
        Seq::empty()
    } else {
        rows_reqs(s, cols, n - 1) + row_reqs(s, n - 1, cols)
    }
}

/// The heights and gaps below of the first `n` rows of column `c`.
pub open spec fn height_terms(c: int, rows: int, n: int) -> Seq<(VarRef, i32)>
    decreases n,
{
    if n <= 0 {
        Seq::empty()
    } else {
        let r = n - 1;
        let t = height_terms(c, rows, n - 1).push((VarRef::Height(r as usize, c as usize), 1i32));
        if n < rows {
            t.push((VarRef::Below(r as usize, c as usize), 1i32))
        } else {
            t
        }
    }
}

/// For the first `n` gaps below in column `c`: the row aligned with the next
/// column's (medium), the gap at least 8 (weak) and equal to the next gap
/// down (weak).
pub open spec fn below_reqs(c: int, rows: int, cols: int, n: int) -> Seq<SpecRequest>
    decreases n,
{
    if n <= 0 {
        Seq::empty()
    } else {
        let r = n - 1;
        let ru = r as usize;
        let cu = c as usize;
        let a = below_reqs(c, rows, cols, n - 1) + (if c + 1 < cols {
            seq![
                SpecRequest::Constrain(
                    seq![
                        (VarRef::Height(ru, cu), 1i32),
                        (VarRef::Below(ru, cu), 1i32),
                        (VarRef::Height(ru, (c + 1) as usize), -1i32),
                        (VarRef::Below(ru, (c + 1) as usize), -1i32),
                    ],
                    0,
                    RelationalOperator::Equal,
                    MEDIUM,
                ),
            ]
        } else {
            Seq::empty()
        });
        let b = a.push(bound_req(VarRef::Below(ru, cu), GAP as int, RelationalOperator::GreaterOrEqual, WEAK));
        if r + 2 < rows {
            b.push(pair_req(VarRef::Below(ru, cu), VarRef::Below((r + 1) as usize, cu), RelationalOperator::Equal, WEAK))
        } else {
            b
        }
    }
}

/// Everything that column `c` asks of the solver: margins, heights and gaps
/// filling the container's height (required); a top margin of 12 and a
/// bottom margin of at least 12 (strong); then the requests on its gaps.
pub open spec fn column_reqs(c: int, rows: int, cols: int) -> Seq<SpecRequest> {
    let sum = seq![(VarRef::Top(c as usize), 1i32), (VarRef::Bottom(c as usize), 1i32)] + height_terms(c, rows, rows).push(
        (VarRef::ContainerHeight, -1i32),
    );
    seq![
        SpecRequest::Constrain(sum, 0, RelationalOperator::Equal, REQUIRED),
        bound_req(VarRef::Top(c as usize), MARGIN as int, RelationalOperator::Equal, STRONG),
        bound_req(VarRef::Bottom(c as usize), MARGIN as int, RelationalOperator::GreaterOrEqual, STRONG),
    ] + below_reqs(c, rows, cols, rows - 1)
}

/// The requests of the first `n` columns.
pub open spec fn columns_reqs(rows: int, cols: int, n: int) -> Seq<SpecRequest>
    decreases n,
{
    if n <= 0 {
        Seq::empty()
    } else {
        columns_reqs(rows, cols, n - 1) + column_reqs(n - 1, rows, cols)
    }
}

/// The whole system of a `rows` by `cols` grid, in the order it is handed
/// to the solver; the container's size is steered toward 300 by 300 last.
pub open spec fn grid_system(s: Seq<Slot>, rows: int, cols: int) -> Seq<SpecRequest> {
    bottom_edits(cols) + rows_reqs(s, cols, rows) + columns_reqs(rows, cols, cols) + seq![
        SpecRequest::Edit(VarRef::ContainerWidth, DEFAULT_CONTAINER_SIZE),
        SpecRequest::Edit(VarRef::ContainerHeight, DEFAULT_CONTAINER_SIZE),
    ]
}

fn push_req(out: &mut Vec<Request>, r: Request)
    ensures
        views(final(out)@) == views(old(out)@).push(req_view(r)),
{
    out.push(r);
    proof {
        assert(views(out@) =~= views(old(out)@).push(req_view(r)));
    }
}

fn pair(a: VarRef, b: VarRef, op: RelationalOperator, st: u32) -> (r: Request)
    ensures
        req_view(r) == pair_req(a, b, op, st),
{
    let mut terms: Vec<(VarRef, i32)> = Vec::new();
    terms.push((a, 1));
    terms.push((b, -1));
    proof {
        assert(terms@ =~= seq![(a, 1i32), (b, -1i32)]);
    }
    Request::Constrain(LinearConstraint { terms, constant: 0, op, strength: st })
}

fn bound(a: VarRef, b: u32, op: RelationalOperator, st: u32) -> (r: Request)
    requires
        b <= i32::MAX,
    ensures
        req_view(r) == bound_req(a, b as int, op, st),
{
    let mut terms: Vec<(VarRef, i32)> = Vec::new();
    terms.push((a, 1));
    proof {
        assert(terms@ =~= seq![(a, 1i32)]);
    }
    Request::Constrain(LinearConstraint { terms, constant: -(b as i32), op, strength: st })
}

/// The variable that `v` names in `vars`; fails for a name outside the
/// table.
fn resolve(vars: &SystemVars, v: VarRef) -> (r: Result<Variable, LayoutError>)
    ensures
        r is Err ==> r == Err::<Variable, LayoutError>(LayoutError::Solver),
{
    match v {
        VarRef::ContainerWidth => Ok(vars.container_width),
        VarRef::ContainerHeight => Ok(vars.container_height),
        VarRef::Top(c) => pick(&vars.top, c),
        VarRef::Bottom(c) => pick(&vars.bottom, c),
        VarRef::Left(r) => pick(&vars.left, r),
        VarRef::Right(r) => pick(&vars.right, r),
        VarRef::Width(r, c) => pick2(&vars.width, r, c),
        VarRef::Height(r, c) => pick2(&vars.height, r, c),
        VarRef::Gap(r, c) => pick2(&vars.gap, r, c),
        VarRef::Below(r, c) => pick2(&vars.below, r, c),
    }
}

fn pick(v: &Vec<Variable>, i: usize) -> (r: Result<Variable, LayoutError>)
    ensures
        r is Err ==> r == Err::<Variable, LayoutError>(LayoutError::Solver),
{
    if i < v.len() {
        Ok(v[i])
    } else {
        Err(LayoutError::Solver)
    }
}

fn pick2(v: &Vec<Vec<Variable>>, i: usize, j: usize) -> (r: Result<Variable, LayoutError>)
    ensures
        r is Err ==> r == Err::<Variable, LayoutError>(LayoutError::Solver),
{
    if i < v.len() {
        pick(&v[i], j)
    } else {
        Err(LayoutError::Solver)
    }
}

/// Hands one request to `solver`.
fn feed(solver: &mut Solver, vars: &SystemVars, req: &Request) -> (r: Result<(), LayoutError>)
    ensures
        r is Err ==> r == Err::<(), LayoutError>(LayoutError::Solver),
{
    match req {
        Request::Edit(v, value) => {
            let x = resolve(vars, *v)?;
            edit(solver, x, *value)
        },
        Request::Constrain(c) => {
            let mut terms: Vec<(Variable, i32)> = Vec::new();
            let mut k: usize = 0;
            while k < c.terms.len()
                invariant
                    k <= c.terms@.len(),
                decreases c.terms@.len() - k,
            {
                let (v, coefficient) = c.terms[k];
                let x = resolve(vars, v)?;
                terms.push((x, coefficient));
                k = k + 1;
            }
            constrain(solver, &terms, c.constant, c.op, c.strength)
        },
    }
}

/// Hands the requests of `sys` to `solver`, in order, stopping at the first
/// that it refuses.
fn build_system(solver: &mut Solver, vars: &SystemVars, sys: &Vec<Request>) -> (r: Result<(), LayoutError>)
    ensures
        r is Err ==> r == Err::<(), LayoutError>(LayoutError::Solver),
{
    let mut k: usize = 0;
    while k < sys.len()
        invariant
            k <= sys@.len(),
        decreases sys@.len() - k,
    {
        feed(solver, vars, &sys[k])?;
        k = k + 1;
    }
    Ok(())
}

/// Appends the requests of column `c` to `out`.
fn push_column(out: &mut Vec<Request>, c: usize, rows: usize, cols: usize)
    requires
        1 <= rows <= u32::MAX,
        c < cols <= u32::MAX,
    ensures
        views(final(out)@) == views(old(out)@) + column_reqs(c as int, rows as int, cols as int),
{
    let ghost base = views(out@);
    let ghost head = seq![(VarRef::Top(c), 1i32), (VarRef::Bottom(c), 1i32)];
    let mut terms: Vec<(VarRef, i32)> = Vec::new();
    terms.push((VarRef::Top(c), 1));
    terms.push((VarRef::Bottom(c), 1));
    proof {
        assert(terms@ =~= head + height_terms(c as int, rows as int, 0));
    }
    let mut r: usize = 0;
    while r < rows
        invariant
            r <= rows,
            terms@ == head + height_terms(c as int, rows as int, r as int),
        decreases rows - r,
    {
        terms.push((VarRef::Height(r, c), 1));
        if r + 1 < rows {
            terms.push((VarRef::Below(r, c), 1));
        }
        proof {
            assert(terms@ =~= head + height_terms(c as int, rows as int, r + 1));
        }
        r = r + 1;
    }
    terms.push((VarRef::ContainerHeight, -1));
    proof {
        assert(terms@ =~= head + height_terms(c as int, rows as int, rows as int).push((VarRef::ContainerHeight, -1i32)));
    }
    push_req(
        out,
        Request::Constrain(LinearConstraint { terms, constant: 0, op: RelationalOperator::Equal, strength: REQUIRED }),
    );
    push_req(out, bound(VarRef::Top(c), MARGIN, RelationalOperator::Equal, STRONG));
    push_req(out, bound(VarRef::Bottom(c), MARGIN, RelationalOperator::GreaterOrEqual, STRONG));
    let ghost base2 = views(out@);
    proof {
        let sum = head + height_terms(c as int, rows as int, rows as int).push((VarRef::ContainerHeight, -1i32));
        assert(base2 =~= base + seq![
            SpecRequest::Constrain(sum, 0, RelationalOperator::Equal, REQUIRED),
            bound_req(VarRef::Top(c), MARGIN as int, RelationalOperator::Equal, STRONG),
            bound_req(VarRef::Bottom(c), MARGIN as int, RelationalOperator::GreaterOrEqual, STRONG),
        ]);
    }
    let mut r: usize = 0;
    while rows - r > 1
        invariant
            r <= rows - 1,
            rows >= 1,
            c < cols,
            views(out@) == base2 + below_reqs(c as int, rows as int, cols as int, r as int),
        decreases rows - r,
    {
        if c + 1 < cols {
            let mut t: Vec<(VarRef, i32)> = Vec::new();
            t.push((VarRef::Height(r, c), 1));
            t.push((VarRef::Below(r, c), 1));
            t.push((VarRef::Height(r, c + 1), -1));
            t.push((VarRef::Below(r, c + 1), -1));
            proof {
                assert(t@ =~= seq![
                    (VarRef::Height(r, c), 1i32),
                    (VarRef::Below(r, c), 1i32),
                    (VarRef::Height(r, (c + 1) as usize), -1i32),
                    (VarRef::Below(r, (c + 1) as usize), -1i32),
                ]);
            }
            push_req(
                out,
                Request::Constrain(LinearConstraint { terms: t, constant: 0, op: RelationalOperator::Equal, strength: MEDIUM }),
            );
        }
        push_req(out, bound(VarRef::Below(r, c), GAP, RelationalOperator::GreaterOrEqual, WEAK));
        if rows - r > 2 {
            push_req(out, pair(VarRef::Below(r, c), VarRef::Below(r + 1, c), RelationalOperator::Equal, WEAK));
        }
        proof {
            assert(views(out@) =~= base2 + below_reqs(c as int, rows as int, cols as int, r + 1));
        }
        r = r + 1;
    }
    proof {
        assert(views(out@) =~= base + column_reqs(c as int, rows as int, cols as int));
    }
}

/// Why a layout step or solve failed.
#[derive(Clone, Copy, Debug, PartialEq, Eq)]
pub enum LayoutError {
    /// `span` was called while the cursor's cell holds nothing.
    NoCellToSpan,
    /// A cell coordinate would reach `u32::MAX`.
    OutOfRange,
    /// The grid holds no cell to lay out.
    EmptyGrid,
    /// The constraint solver refused the system.
    Solver,
}

/// A cell of the grid with its position.
#[derive(Clone, Copy, Debug)]
pub struct Slot {
    pub position: LayoutPosition,
    pub cell: Cell,
}

/// Slots strictly increasing in row-major order, every coordinate below
/// `u32::MAX`.
pub open spec fn slots_ok(s: Seq<Slot>) -> bool {
    &&& forall|a: int, b: int| 0 <= a < b < s.len() ==> before(#[trigger] s[a].position, #[trigger] s[b].position)
    &&& forall|k: int|
        0 <= k < s.len() ==> (#[trigger] s[k]).position.col < u32::MAX && s[k].position.row < u32::MAX
}

/// Whether some slot sits at column `c`, row `r`.
pub open spec fn occupied(s: Seq<Slot>, c: int, r: int) -> bool {
    exists|k: int| 0 <= k < s.len() && (#[trigger] s[k]).position.col == c && s[k].position.row == r
}

/// The cursor's next cell: one to the right, or the start of the next row
/// when the wrap width (if any) is reached.
pub open spec fn step(c: (int, int), wrap: int) -> (int, int) {
    if wrap > 0 && c.0 + 1 >= wrap {
        (0, c.1 + 1)
    } else {
        (c.0 + 1, c.1)
    }
}

/// The cursor after `j` steps from `c`.
pub open spec fn walk(c: (int, int), wrap: int, j: nat) -> (int, int)
    decreases j,
{
    if j == 0 {
        c
    } else {
        step(walk(c, wrap, (j - 1) as nat), wrap)
    }
}

/// Whether `j` steps from `c` reach the first free cell: every cell passed
/// on the way is occupied, the one reached is not.
pub open spec fn first_free(s: Seq<Slot>, c: (int, int), wrap: int, j: nat) -> bool {
    &&& !occupied(s, walk(c, wrap, j).0, walk(c, wrap, j).1)
    &&& forall|i: nat| i < j ==> occupied(s, #[trigger] walk(c, wrap, i).0, walk(c, wrap, i).1)
}

/// The index of the slot at `p` (meaningful when there is one).
pub open spec fn slot_index(s: Seq<Slot>, p: (int, int)) -> int {
    choose|k: int| 0 <= k < s.len() && (#[trigger] s[k]).position.col == p.0 && s[k].position.row == p.1
}

/// The grid as a map from (column, row) to cell.
pub open spec fn cell_map(s: Seq<Slot>) -> Map<(int, int), Cell> {
    Map::new(|p: (int, int)| occupied(s, p.0, p.1), |p: (int, int)| s[slot_index(s, p)].cell)
}

/// Positions are unique, so `slot_index` finds the slot itself.
pub proof fn lemma_slot_index(s: Seq<Slot>, k: int)
    requires
        slots_ok(s),
        0 <= k < s.len(),
    ensures
        occupied(s, s[k].position.col as int, s[k].position.row as int),
        slot_index(s, (s[k].position.col as int, s[k].position.row as int)) == k,
        cell_map(s)[(s[k].position.col as int, s[k].position.row as int)] == s[k].cell,
{
    let p = (s[k].position.col as int, s[k].position.row as int);
    assert(occupied(s, p.0, p.1));
    let i = slot_index(s, p);
    if i < k {
        assert(before(s[i].position, s[k].position));
    } else if i > k {
        assert(before(s[k].position, s[i].position));
    }
}

/// Whether `q` lies in the `x`-by-`y` block at `c`, the block's own first
/// cell excepted, counting only rows before `cy` and, in row `cy`, columns
/// before `cx`.
pub open spec fn in_block_upto(q: (int, int), c: (int, int), x: int, cy: int, cx: int) -> bool {
    let dx = q.0 - c.0;
    let dy = q.1 - c.1;
    &&& 0 <= dx < x
    &&& 0 <= dy
    &&& (dy < cy || (dy == cy && dx < cx))
    &&& !(dx == 0 && dy == 0)
}

/// `m` with every free cell of the `x`-by-`y` block at `c`, but its first,
/// taken by a span placeholder; cells already taken keep what they hold.
pub open spec fn spanned(m: Map<(int, int), Cell>, c: (int, int), x: int, y: int) -> Map<(int, int), Cell> {
    spanned_upto(m, c, x, y, y, 0)
}

/// `spanned`, for the part of the block that `in_block_upto` counts.
pub open spec fn spanned_upto(m: Map<(int, int), Cell>, c: (int, int), x: int, y: int, cy: int, cx: int) -> Map<
    (int, int),
    Cell,
> {
    Map::new(
        |q: (int, int)| m.contains_key(q) || in_block_upto(q, c, x, cy, cx),
        |q: (int, int)|
            if in_block_upto(q, c, x, cy, cx) && !m.contains_key(q) {
                Cell::Span(
                    Span {
                        leading: 0,
                        width: 0,
                        top: 0,
                        height: 0,
                        start_position: LayoutPosition { row: y as u32, col: x as u32 },
                    },
                )
            } else {
                m[q]
            },
    )
}

/// `v` clamped to the range of `u32`.
pub open spec fn clamp_u32(v: int) -> u32 {
    if v > u32::MAX {
        u32::MAX
    } else if v < 0 {
        0
    } else {
        v as u32
    }
}

/// The leading offset of column `c` in row `r`: the left margin, then the
/// width and trailing gap of every column before it.
pub open spec fn leading_at(sol: Solution, r: int, c: int) -> int
    decreases c,
{
    if c <= 0 {
        sol.left@[r] as int
    } else {
        leading_at(sol, r, c - 1) + sol.width@[r]@[c - 1] + sol.gap@[r]@[c - 1]
    }
}

/// The top offset of row `r` in column `c`: the top margin, then for every
/// row above it the height of its cell (if the cell holds anything) and the
/// gap below.
pub open spec fn top_at(sol: Solution, s: Seq<Slot>, r: int, c: int) -> int
    decreases r,
{
    if r <= 0 {
        sol.top@[c] as int
    } else {
        top_at(sol, s, r - 1, c) + (if occupied(s, c, r - 1) {
            sol.height@[r - 1]@[c] as int
        } else {
            0
        }) + sol.below@[r - 1]@[c]
    }
}

/// The slots with the geometry that `sol` gives every cell within the
/// first `rows` rows and `cols` columns; the others keep theirs.
pub open spec fn placed(s: Seq<Slot>, sol: Solution, rows: int, cols: int) -> Seq<Slot> {
    Seq::new(
        s.len(),
        |k: int|
            {
                let c = s[k].position.col as int;
                let r = s[k].position.row as int;
                if c < cols && r < rows {
                    Slot {
                        cell: with_geometry(
                            s[k].cell,
                            clamp_u32(leading_at(sol, r, c)),
                            sol.width@[r]@[c],
                            clamp_u32(top_at(sol, s, r, c)),
                            sol.height@[r]@[c],
                        ),
                        ..s[k]
                    }
                } else {
                    s[k]
                }
            },
    )
}

/// Clamping a partial sum of non-negative terms does not change the clamped total.
pub proof fn lemma_clamp_add(a: int, b: int)
    requires
        a >= 0,
        b >= 0,
    ensures
        clamp_u32(clamp_u32(a) + b) == clamp_u32(a + b),
{
}

/// Leading offsets are never negative.
pub proof fn lemma_leading_nonneg(sol: Solution, r: int, c: int, cols: int)
    requires
        0 <= r < sol.left@.len(),
        c < cols,
        r < sol.width@.len(),
        r < sol.gap@.len(),
        sol.width@[r]@.len() == cols,
        sol.gap@[r]@.len() == cols - 1,
    ensures
        leading_at(sol, r, c) >= 0,
    decreases c,
{
    if c > 0 {
        lemma_leading_nonneg(sol, r, c - 1, cols);
    }
}

/// Top offsets are never negative.
pub proof fn lemma_top_nonneg(sol: Solution, s: Seq<Slot>, r: int, c: int, rows: int, cols: int)
    requires
        solution_shaped(sol, rows, cols),
        0 <= c < cols,
        r < rows,
    ensures
        top_at(sol, s, r, c) >= 0,
    decreases r,
{
    if r > 0 {
        lemma_top_nonneg(sol, s, r - 1, c, rows, cols);
    }
}

/// Along a row the solved cells do not overlap: every column starts at or
/// after the end of each column before it.
pub proof fn lemma_row_cells_disjoint(sol: Solution, rows: int, cols: int, r: int, c1: int, c2: int)
    requires
        solution_shaped(sol, rows, cols),
        0 <= r < rows,
        0 <= c1 < c2 < cols,
    ensures
        leading_at(sol, r, c1) + sol.width@[r]@[c1] <= leading_at(sol, r, c2),
        sol.width@[r]@[c1] > 0 ==> leading_at(sol, r, c1) < leading_at(sol, r, c2),
    decreases c2,
{
    if c2 > c1 + 1 {
        lemma_row_cells_disjoint(sol, rows, cols, r, c1, c2 - 1);
    }
}

/// Down a column the solved cells do not overlap: every row starts at or
/// after the end of each occupied cell above it.
pub proof fn lemma_column_cells_disjoint(sol: Solution, s: Seq<Slot>, rows: int, cols: int, c: int, r1: int, r2: int)
    requires
        solution_shaped(sol, rows, cols),
        0 <= c < cols,
        0 <= r1 < r2 < rows,
        occupied(s, c, r1),
    ensures
        top_at(sol, s, r1, c) + sol.height@[r1]@[c] <= top_at(sol, s, r2, c),
        sol.height@[r1]@[c] > 0 ==> top_at(sol, s, r1, c) < top_at(sol, s, r2, c),
    decreases r2,
{
    if r2 > r1 + 1 {
        lemma_column_cells_disjoint(sol, s, rows, cols, c, r1, r2 - 1);
    }
}

/// Adds `b` to `a`, saturating at `u32::MAX`.
fn add_clamped(a: u64, b: u32) -> (r: u64)
    requires
        a <= u32::MAX,
    ensures
        r == clamp_u32(a + b),
{
    let v = a + b as u64;
    if v > u32::MAX as u64 {
        u32::MAX as u64
    } else {
        v
    }
}

/// How many of the first `i` slots lie in row `r`.
pub open spec fn count_row(s: Seq<Slot>, r: int, i: int) -> nat
    decreases i,
{
    if i <= 0 {
        0
    } else {
        count_row(s, r, i - 1) + if s[i - 1].position.row == r {
            1nat
        } else {
            0nat
        }
    }
}

/// The most slots that any one row holds.
pub open spec fn longest_row(s: Seq<Slot>) -> nat {
    longest_row_upto(s, s.len() as int)
}

/// The most slots that any of the rows of the first `i` slots holds.
pub open spec fn longest_row_upto(s: Seq<Slot>, i: int) -> nat
    decreases i,
{
    if i <= 0 {
        0
    } else {
        let a = longest_row_upto(s, i - 1);
        let b = count_row(s, s[i - 1].position.row as int, s.len() as int);
        if a >= b {
            a
        } else {
            b
        }
    }
}

/// The number of columns the solver lays out: the wrap width, or without
/// one the length of the longest row.
pub open spec fn layout_columns(s: Seq<Slot>, wrap: int) -> int {
    if wrap > 0 {
        wrap
    } else {
        longest_row(s) as int
    }
}

/// The number of rows the solver lays out: up to the last occupied one.
pub open spec fn layout_rows(s: Seq<Slot>) -> int {
    s.last().position.row + 1
}

/// The row of an existing slot holds at least that slot.
pub proof fn lemma_count_row_positive(s: Seq<Slot>, k: int, i: int)
    requires
        0 <= k < i <= s.len(),
    ensures
        count_row(s, s[k].position.row as int, i) >= 1,
        count_row(s, s[k].position.row as int, i) <= i,
    decreases i,
{
    if i - 1 > k {
        lemma_count_row_positive(s, k, i - 1);
    } else {
        lemma_count_row_bound(s, s[k].position.row as int, i - 1);
    }
}

/// A row holds no more slots than there are.
pub proof fn lemma_count_row_bound(s: Seq<Slot>, r: int, i: int)
    requires
        0 <= i <= s.len(),
    ensures
        count_row(s, r, i) <= i,
    decreases i,
{
    if i > 0 {
        lemma_count_row_bound(s, r, i - 1);
    }
}

/// No row is longer than the longest.
pub proof fn lemma_longest_row_at_least(s: Seq<Slot>, k: int, i: int)
    requires
        0 <= k < i <= s.len(),
    ensures
        longest_row_upto(s, i) >= count_row(s, s[k].position.row as int, s.len() as int),
    decreases i,
{
    if i - 1 > k {
        lemma_longest_row_at_least(s, k, i - 1);
    }
}

/// The components among the first `i` slots, in row-major order, each with
/// its widget and its (leading, top, width, height).
pub open spec fn components_upto(s: Seq<Slot>, i: int) -> Seq<(WidgetHandle, (u32, u32, u32, u32))>
    decreases i,
{
    if i <= 0 {
        Seq::empty()
    } else {
        match s[i - 1].cell {
            Cell::Component(c) => components_upto(s, i - 1).push(
                (c.item, (c.leading, c.top, c.width, c.height)),
            ),
            Cell::Span(_) => components_upto(s, i - 1),
        }
    }
}

/// Whether `j` steps from `c` reach the first cell that `m` leaves free.
pub open spec fn first_free_in(m: Map<(int, int), Cell>, c: (int, int), wrap: int, j: nat) -> bool {
    &&& !m.contains_key(walk(c, wrap, j))
    &&& forall|i: nat| i < j ==> m.contains_key(#[trigger] walk(c, wrap, i))
}

/// The first cell from `c` on that `m` leaves free.
pub open spec fn settle(m: Map<(int, int), Cell>, c: (int, int), wrap: int) -> (int, int) {
    walk(c, wrap, choose|j: nat| first_free_in(m, c, wrap, j))
}

/// There is only one first free cell.
pub proof fn lemma_first_free_unique(m: Map<(int, int), Cell>, c: (int, int), wrap: int, j1: nat, j2: nat)
    requires
        first_free_in(m, c, wrap, j1),
        first_free_in(m, c, wrap, j2),
    ensures
        j1 == j2,
{
    if j1 < j2 {
        assert(m.contains_key(walk(c, wrap, j1)));
    } else if j2 < j1 {
        assert(m.contains_key(walk(c, wrap, j2)));
    }
}

/// `settle` is the first free cell that the cursor reaches.
pub proof fn lemma_settle(s: Seq<Slot>, c: (int, int), wrap: int, j: nat)
    requires
        first_free(s, c, wrap, j),
    ensures
        settle(cell_map(s), c, wrap) == walk(c, wrap, j),
{
    let m = cell_map(s);
    assert(first_free_in(m, c, wrap, j)) by {
        assert forall|i: nat| i < j implies m.contains_key(#[trigger] walk(c, wrap, i)) by {
            assert(occupied(s, walk(c, wrap, i).0, walk(c, wrap, i).1));
        }
    }
    let j2 = choose|j2: nat| first_free_in(m, c, wrap, j2);
    lemma_first_free_unique(m, c, wrap, j, j2);
}

/// One step of a placement script on a grid `m` with cursor `c`; `size` is
/// the preferred size of an added widget.
pub open spec fn apply_action(
    st: (Map<(int, int), Cell>, (int, int)),
    wrap: int,
    a: Action,
    size: (u32, u32),
) -> Result<(Map<(int, int), Cell>, (int, int)), LayoutError> {
    let m = st.0;
    let c = st.1;
    match a {
        Action::Add { item } => {
            let t = settle(m, c, wrap);
            if t.0 < u32::MAX && t.1 < u32::MAX {
                Ok(
                    (
                        m.insert(
                            t,
                            Cell::Component(
                                Component {
                                    item,
                                    standard_width: size.0,
                                    standard_height: size.1,
                                    leading: 0,
                                    width: 0,
                                    top: 0,
                                    height: 0,
                                },
                            ),
                        ),
                        t,
                    ),
                )
            } else {
                Err(LayoutError::OutOfRange)
            }
        },
        Action::Wrap => if c.1 + 1 < u32::MAX {
            Ok((m, (0int, c.1 + 1)))
        } else {
            Err(LayoutError::OutOfRange)
        },
        Action::Span(x, y) => if !m.contains_key(c) {
            Err(LayoutError::NoCellToSpan)
        } else if x > 0 && y > 0 && (c.0 + x - 1 >= u32::MAX || c.1 + y - 1 >= u32::MAX) {
            Err(LayoutError::OutOfRange)
        } else {
            Ok((spanned(m, c, x as int, y as int), c))
        },
    }
}

/// A placement script run from `st`, stopping at the first step that fails;
/// `sizes[i]` is the size used by the `i`-th action if it adds a widget.
pub open spec fn run_script(
    st: (Map<(int, int), Cell>, (int, int)),
    wrap: int,
    acts: Seq<Action>,
    sizes: Seq<(u32, u32)>,
) -> Result<(Map<(int, int), Cell>, (int, int)), LayoutError>
    decreases acts.len(),
{
    if acts.len() == 0 {
        Ok(st)
    } else {
        match run_script(st, wrap, acts.drop_last(), sizes.drop_last()) {
            Ok(mid) => apply_action(mid, wrap, acts.last(), sizes.last()),
            Err(e) => Err(e),
        }
    }
}

/// Once a step fails, the rest of the script is not run.
pub proof fn lemma_run_script_stops(
    st: (Map<(int, int), Cell>, (int, int)),
    wrap: int,
    acts: Seq<Action>,
    sizes: Seq<(u32, u32)>,
    k: int,
)
    requires
        0 <= k <= acts.len(),
        sizes.len() == acts.len(),
        run_script(st, wrap, acts.subrange(0, k), sizes.subrange(0, k)) is Err,
    ensures
        run_script(st, wrap, acts, sizes) == run_script(st, wrap, acts.subrange(0, k), sizes.subrange(0, k)),
    decreases acts.len() - k,
{
    if k < acts.len() {
        let a2 = acts.subrange(0, k + 1);
        let s2 = sizes.subrange(0, k + 1);
        assert(a2.drop_last() == acts.subrange(0, k));
        assert(s2.drop_last() == sizes.subrange(0, k));
        lemma_run_script_stops(st, wrap, acts, sizes, k + 1);
    } else {
        assert(acts.subrange(0, k) == acts);
        assert(sizes.subrange(0, k) == sizes);
    }
}

/// The actions up to and including the one at `k`.
pub open spec fn actions_through(acts: Seq<Action>, k: int) -> Seq<Action> {
    acts.subrange(0, k + 1)
}

/// `fin` is `mid` with the geometry of some solution of its system.
pub open spec fn laid_out(mid: Seq<Slot>, wrap: int, fin: Seq<Slot>) -> bool {
    exists|sol: Solution|
        solution_shaped(sol, layout_rows(mid), layout_columns(mid, wrap)) && #[trigger] placed(
            mid,
            sol,
            layout_rows(mid),
            layout_columns(mid, wrap),
        ) == fin
}

/// Whether `sizes` holds, for each `Add` of `acts` that the run from `st`
/// reaches, a size that `f` may return for its widget.
pub open spec fn sizes_fit<F: Fn(WidgetHandle) -> (u32, u32)>(
    f: F,
    st: (Map<(int, int), Cell>, (int, int)),
    wrap: int,
    acts: Seq<Action>,
    sizes: Seq<(u32, u32)>,
) -> bool {
    &&& sizes.len() == acts.len()
    &&& forall|i: int|
        0 <= i < acts.len() && (#[trigger] acts[i]) is Add && run_script(
            st,
            wrap,
            acts.subrange(0, i),
            sizes.subrange(0, i),
        ) is Ok ==> f.ensures((acts[i]->item,), sizes[i])
}

/// A sparse grid of cells filled by a cursor, and the geometry the solver
/// gave them.
pub struct GridLayout {
    wrap: u32,
    current_x: u32,
    current_y: u32,
    grid: Vec<Slot>,
}

impl GridLayout {
    pub closed spec fn slots(&self) -> Seq<Slot> {
        self.grid@
    }

    pub closed spec fn wrap_width(&self) -> u32 {
        self.wrap
    }

    /// The cursor as (column, row).
    pub closed spec fn cursor(&self) -> (int, int) {
        (self.current_x as int, self.current_y as int)
    }

    pub open spec fn wf(&self) -> bool {
        &&& slots_ok(self.slots())
        &&& self.cursor().0 < u32::MAX
        &&& self.cursor().1 < u32::MAX
    }

    pub fn new() -> (r: GridLayout)
        ensures
            r.wf(),
            r.slots() == Seq::<Slot>::empty(),
            r.wrap_width() == 0,
            r.cursor() == (0int, 0int),
    {
        GridLayout { wrap: 0, current_x: 0, current_y: 0, grid: Vec::new() }
    }

    /// Sets the number of columns after which the cursor wraps; 0 means no
    /// limit.
    pub fn set_wrap(self, wrap: u32) -> (r: GridLayout)
        ensures
            r.slots() == self.slots(),
            r.cursor() == self.cursor(),
            r.wrap_width() == wrap,
            self.wf() ==> r.wf(),
    {
        let mut g = self;
        g.wrap = wrap;
        g
    }

    /// The cells of the grid with their positions, in row-major order.
    pub fn cells(&self) -> (r: &Vec<Slot>)
        ensures
            r@ == self.slots(),
    {
        &self.grid
    }

    /// The index of the first slot not before `pos`, and whether it sits at
    /// `pos`.
    fn find_slot(&self, pos: LayoutPosition) -> (r: (usize, bool))
        requires
            self.wf(),
        ensures
            r.0 <= self.slots().len(),
            forall|k: int| 0 <= k < r.0 ==> before(#[trigger] self.slots()[k].position, pos),
            forall|k: int| r.0 <= k < self.slots().len() ==> !before(#[trigger] self.slots()[k].position, pos),
            r.1 <==> (r.0 < self.slots().len() && self.slots()[r.0 as int].position == pos),
            r.1 <==> occupied(self.slots(), pos.col as int, pos.row as int),
    {
        let ghost s = self.slots();
        let n = self.grid.len();
        let mut j: usize = 0;
        while j < n && (self.grid[j].position.row < pos.row || (self.grid[j].position.row == pos.row
            && self.grid[j].position.col < pos.col))
            invariant
                s == self.slots(),
                n == s.len(),
                j <= n,
                forall|k: int| 0 <= k < j ==> before(#[trigger] s[k].position, pos),
            decreases n - j,
        {
            j = j + 1;
        }
        let found = j < n && self.grid[j].position.row == pos.row && self.grid[j].position.col == pos.col;
        proof {
            assert forall|k: int| j <= k < n implies !before(#[trigger] s[k].position, pos) by {
                if k > j {
                    assert(before(s[j as int].position, s[k].position));
                }
            }
            if occupied(s, pos.col as int, pos.row as int) {
                let k = choose|k: int| 0 <= k < s.len() && (#[trigger] s[k]).position.col == pos.col && s[k].position.row == pos.row;
                if k > j {
                    assert(before(s[j as int].position, s[k].position));
                }
            }
        }
        (j, found)
    }

    /// Stores `cell` at `pos`, replacing what was there.
    fn put_cell(&mut self, pos: LayoutPosition, cell: Cell)
        requires
            old(self).wf(),
            pos.col < u32::MAX,
            pos.row < u32::MAX,
        ensures
            final(self).wf(),
            final(self).cursor() == old(self).cursor(),
            final(self).wrap_width() == old(self).wrap_width(),
            cell_map(final(self).slots()) == cell_map(old(self).slots()).insert(
                (pos.col as int, pos.row as int),
                cell,
            ),
    {
        let ghost s = self.slots();
        let (j, found) = self.find_slot(pos);
        let slot = Slot { position: pos, cell: cell };
        if found {
            self.grid.set(j, slot);
        } else {
            self.grid.insert(j, slot);
        }
        proof {
            let s2 = self.slots();
            let key = (pos.col as int, pos.row as int);
            let m = cell_map(s).insert(key, cell);
            // Where each new slot came from.
            assert forall|k: int| 0 <= k < s2.len() implies (#[trigger] s2[k]) == if k == j as int {
                slot
            } else if !found && k > j {
                s[k - 1]
            } else {
                s[k]
            } by {}
            assert forall|a: int, b: int| 0 <= a < b < s2.len() implies before(#[trigger] s2[a].position, #[trigger] s2[b].position) by {
                if !found {
                    if a < j && b > j {
                        assert(before(s[a].position, s[b - 1].position));
                    } else if a > j {
                        assert(before(s[a - 1].position, s[b - 1].position));
                    } else if b > j && a == j {
                    } else {
                    }
                } else {
                }
            }
            assert(slots_ok(s2));
            assert forall|q: (int, int)| #[trigger] m.contains_key(q) == occupied(s2, q.0, q.1) by {
                if occupied(s2, q.0, q.1) {
                    let k = choose|k: int| 0 <= k < s2.len() && (#[trigger] s2[k]).position.col == q.0 && s2[k].position.row == q.1;
                    if k != j as int {
                        if !found && k > j {
                            assert(occupied(s, q.0, q.1)) by { assert(s[k - 1] == s2[k]); }
                        } else {
                            assert(occupied(s, q.0, q.1)) by { assert(s[k] == s2[k]); }
                        }
                    }
                }
                if occupied(s, q.0, q.1) {
                    let k = choose|k: int| 0 <= k < s.len() && (#[trigger] s[k]).position.col == q.0 && s[k].position.row == q.1;
                    if found && k == j {
                    } else if !found && k >= j {
                        assert(s2[k + 1] == s[k]);
                    } else {
                        assert(s2[k] == s[k]);
                    }
                }
                if q == key {
                    assert(s2[j as int] == slot);
                }
            }
            assert forall|q: (int, int)| m.contains_key(q) implies #[trigger] cell_map(s2)[q] == m[q] by {
                let k2 = slot_index(s2, q);
                assert(occupied(s2, q.0, q.1));
                lemma_slot_index(s2, k2);
                if q != key {
                    if !found && k2 > j {
                        lemma_slot_index(s, k2 - 1);
                    } else {
                        lemma_slot_index(s, k2);
                    }
                }
            }
            assert(cell_map(s2) =~= m);
        }
    }

    /// Places a component for `item` in the first free cell from the cursor
    /// on, and leaves the cursor there.
    pub fn add(&mut self, item: WidgetHandle, standard_width: u32, standard_height: u32) -> (r: Result<(), LayoutError>)
        requires
            old(self).wf(),
        ensures
            final(self).wf(),
            r is Err ==> r == Err::<(), LayoutError>(LayoutError::OutOfRange),
            final(self).wrap_width() == old(self).wrap_width(),
            exists|j: nat|
                {
                    let target = walk(old(self).cursor(), old(self).wrap_width() as int, j);
                    &&& #[trigger] first_free(old(self).slots(), old(self).cursor(), old(self).wrap_width() as int, j)
                    &&& (r is Ok <==> target.0 < u32::MAX && target.1 < u32::MAX)
                    &&& r is Ok ==> final(self).cursor() == target && cell_map(final(self).slots()) == cell_map(
                        old(self).slots(),
                    ).insert(
                        target,
                        Cell::Component(
                            Component {
                                item,
                                standard_width,
                                standard_height,
                                leading: 0,
                                width: 0,
                                top: 0,
                                height: 0,
                            },
                        ),
                    )
                },
    {
        let r = self.move_position();
        if r.is_err() {
            return r;
        }
        let pos = LayoutPosition::new(self.current_x, self.current_y);
        self.put_cell(pos, new_component(item, standard_width, standard_height));
        Ok(())
    }

    /// Moves the cursor to the start of the next row.
    pub fn wrap_row(&mut self) -> (r: Result<(), LayoutError>)
        requires
            old(self).wf(),
        ensures
            final(self).wf(),
            final(self).slots() == old(self).slots(),
            final(self).wrap_width() == old(self).wrap_width(),
            r is Ok <==> old(self).cursor().1 + 1 < u32::MAX,
            r is Ok ==> final(self).cursor() == (0int, old(self).cursor().1 + 1),
            r is Err ==> r == Err::<(), LayoutError>(LayoutError::OutOfRange) && final(self).cursor() == old(self).cursor(),
    {
        if self.current_y + 1 == u32::MAX {
            return Err(LayoutError::OutOfRange);
        }
        self.current_x = 0;
        self.current_y = self.current_y + 1;
        Ok(())
    }

    /// Marks the free cells of the `x`-by-`y` block at the cursor, but the
    /// cursor's own cell, as taken by the component at the cursor; a cell
    /// that already holds something is left alone.
    pub fn span(&mut self, x: u32, y: u32) -> (r: Result<(), LayoutError>)
        requires
            old(self).wf(),
        ensures
            final(self).wf(),
            final(self).cursor() == old(self).cursor(),
            final(self).wrap_width() == old(self).wrap_width(),
            !occupied(old(self).slots(), old(self).cursor().0, old(self).cursor().1) ==> r == Err::<(), LayoutError>(
                LayoutError::NoCellToSpan,
            ),
            occupied(old(self).slots(), old(self).cursor().0, old(self).cursor().1) && x > 0 && y > 0 && (
            old(self).cursor().0 + x - 1 >= u32::MAX || old(self).cursor().1 + y - 1 >= u32::MAX) ==> r == Err::<
                (),
                LayoutError,
            >(LayoutError::OutOfRange),
            r is Err ==> final(self).slots() == old(self).slots(),
            r is Ok ==> cell_map(final(self).slots()) == spanned(
                cell_map(old(self).slots()),
                old(self).cursor(),
                x as int,
                y as int,
            ),
            r is Ok <==> occupied(old(self).slots(), old(self).cursor().0, old(self).cursor().1) && !(x > 0 && y > 0
                && (old(self).cursor().0 + x - 1 >= u32::MAX || old(self).cursor().1 + y - 1 >= u32::MAX)),
    {
        let (_, found) = self.find_slot(LayoutPosition::new(self.current_x, self.current_y));
        if !found {
            return Err(LayoutError::NoCellToSpan);
        }
        if x > 0 && y > 0 && (self.current_x as u64 + x as u64 - 1 >= u32::MAX as u64 || self.current_y as u64
            + y as u64 - 1 >= u32::MAX as u64) {
            return Err(LayoutError::OutOfRange);
        }
        let ghost m0 = cell_map(self.slots());
        let ghost c = self.cursor();
        let mut cell_y: u32 = 0;
        while cell_y < y
            invariant
                self.wf(),
                self.cursor() == c,
                self.wrap_width() == old(self).wrap_width(),
                x > 0 && y > 0 ==> c.0 + x - 1 < u32::MAX,
                x > 0 && y > 0 ==> c.1 + y - 1 < u32::MAX,
                cell_y <= y,
                cell_map(self.slots()) == spanned_upto(m0, c, x as int, y as int, cell_y as int, 0),
            decreases y - cell_y,
        {
            let mut cell_x: u32 = 0;
            while cell_x < x
                invariant
                    self.wf(),
                    self.cursor() == c,
                    self.wrap_width() == old(self).wrap_width(),
                    x > 0 ==> c.0 + x - 1 < u32::MAX,
                    x > 0 ==> c.1 + y - 1 < u32::MAX,
                    cell_y < y,
                    cell_x <= x,
                    cell_map(self.slots()) == spanned_upto(m0, c, x as int, y as int, cell_y as int, cell_x as int),
                decreases x - cell_x,
            {
                let ghost before_map = cell_map(self.slots());
                if !(cell_x == 0 && cell_y == 0) {
                    let pos = LayoutPosition::new(self.current_x + cell_x, self.current_y + cell_y);
                    let (_, taken) = self.find_slot(pos);
                    proof {
                        let q = (c.0 + cell_x, c.1 + cell_y);
                        assert(!in_block_upto(q, c, x as int, cell_y as int, cell_x as int));
                        assert(before_map.contains_key(q) == m0.contains_key(q));
                        assert(taken == before_map.contains_key(q));
                    }
                    if !taken {
                        self.put_cell(pos, new_span(x, y));
                    }
                }
                proof {
                    assert(cell_map(self.slots()) =~= spanned_upto(
                        m0,
                        c,
                        x as int,
                        y as int,
                        cell_y as int,
                        cell_x + 1,
                    ));
                }
                cell_x = cell_x + 1;
            }
            proof {
                assert(spanned_upto(m0, c, x as int, y as int, cell_y as int, x as int) =~= spanned_upto(
                    m0,
                    c,
                    x as int,
                    y as int,
                    cell_y + 1,
                    0,
                ));
            }
            cell_y = cell_y + 1;
        }
        Ok(())
    }

    /// The preferred height of the cell at (`col`, `row`), 0 where there is
    /// none.
    fn preferred_height_at(&self, col: u32, row: u32) -> (r: u32)
        requires
            self.wf(),
        ensures
            r == pref_height(self.slots(), col as int, row as int),
    {
        let (j, found) = self.find_slot(LayoutPosition::new(col, row));
        if found {
            proof {
                lemma_slot_index(self.slots(), j as int);
            }
            self.grid[j].cell.get_preferred_height()
        } else {
            0
        }
    }

    /// Appends the requests of row `r` to `out`.
    fn push_row(&self, out: &mut Vec<Request>, r: usize, cols: usize)
        requires
            self.wf(),
            1 <= cols <= u32::MAX,
            r <= u32::MAX,
        ensures
            views(final(out)@) == views(old(out)@) + row_reqs(self.slots(), r as int, cols as int),
    {
        let ghost s = self.slots();
        let ghost base = views(out@);
        let mut c: usize = 0;
        while c < cols
            invariant
                self.wf(),
                s == self.slots(),
                c <= cols,
                cols <= u32::MAX,
                r <= u32::MAX,
                views(out@) == base + row_edits(s, r as int, cols as int, c as int),
            decreases cols - c,
        {
            let h = self.preferred_height_at(c as u32, r as u32);
            push_req(out, Request::Edit(VarRef::Height(r, c), h));
            if c + 1 < cols {
                push_req(out, Request::Edit(VarRef::Gap(r, c), GAP));
            }
            proof {
                assert(views(out@) =~= base + row_edits(s, r as int, cols as int, c + 1));
            }
            c = c + 1;
        }
        let ghost head = seq![(VarRef::Left(r), 1i32), (VarRef::Right(r), 1i32)];
        let mut terms: Vec<(VarRef, i32)> = Vec::new();
        terms.push((VarRef::Left(r), 1));
        terms.push((VarRef::Right(r), 1));
        proof {
            assert(terms@ =~= head + width_terms(r as int, cols as int, 0));
        }
        let mut c: usize = 0;
        while c < cols
            invariant
                c <= cols,
                terms@ == head + width_terms(r as int, cols as int, c as int),
            decreases cols - c,
        {
            terms.push((VarRef::Width(r, c), 1));
            if c + 1 < cols {
                terms.push((VarRef::Gap(r, c), 1));
            }
            proof {
                assert(terms@ =~= head + width_terms(r as int, cols as int, c + 1));
            }
            c = c + 1;
        }
        terms.push((VarRef::ContainerWidth, -1));
        proof {
            assert(terms@ =~= head + width_terms(r as int, cols as int, cols as int).push((VarRef::ContainerWidth, -1i32)));
        }
        push_req(
            out,
            Request::Constrain(LinearConstraint { terms, constant: 0, op: RelationalOperator::Equal, strength: REQUIRED }),
        );
        push_req(out, bound(VarRef::Left(r), MARGIN, RelationalOperator::LessOrEqual, STRONG));
        push_req(out, bound(VarRef::Right(r), MARGIN, RelationalOperator::LessOrEqual, STRONG));
        let ghost base2 = views(out@);
        proof {
            let sum = head + width_terms(r as int, cols as int, cols as int).push((VarRef::ContainerWidth, -1i32));
            assert(base2 =~= base + row_edits(s, r as int, cols as int, cols as int) + seq![
                SpecRequest::Constrain(sum, 0, RelationalOperator::Equal, REQUIRED),
                bound_req(VarRef::Left(r), MARGIN as int, RelationalOperator::LessOrEqual, STRONG),
                bound_req(VarRef::Right(r), MARGIN as int, RelationalOperator::LessOrEqual, STRONG),
            ]);
            assert(base == views(old(out)@));
        }
        if cols > 1 {
            let mut i: usize = 0;
            while i < cols - 1
                invariant
                    cols > 1,
                    i <= cols - 1,
                    views(out@) == base2 + width_eqs(r as int, i as int),
                decreases cols - 1 - i,
            {
                push_req(out, pair(VarRef::Width(r, i), VarRef::Width(r, i + 1), RelationalOperator::Equal, STRONG));
                proof {
                    assert(views(out@) =~= base2 + width_eqs(r as int, i + 1));
                }
                i = i + 1;
            }
            let ghost base3 = views(out@);
            let mut i: usize = 0;
            while cols - i > 2
                invariant
                    cols > 1,
                    i <= cols - 2,
                    views(out@) == base3 + gap_reqs(r as int, i as int),
                decreases cols - i,
            {
                push_req(out, pair(VarRef::Gap(r, i), VarRef::Gap(r, i + 1), RelationalOperator::Equal, STRONG));
                push_req(out, bound(VarRef::Gap(r, i), GAP, RelationalOperator::LessOrEqual, STRONG));
                proof {
                    assert(views(out@) =~= base3 + gap_reqs(r as int, i + 1));
                }
                i = i + 1;
            }
            proof {
                assert(i == cols - 2);
                assert(views(out@) =~= views(old(out)@) + row_reqs(s, r as int, cols as int));
            }
        } else {
            proof {
                assert(views(out@) =~= views(old(out)@) + row_reqs(s, r as int, cols as int));
            }
        }
    }

    /// The constraint system of the first `rows` rows and `cols` columns, as
    /// plain values, in the order it goes to the solver.
    pub fn system_of(&self, rows: usize, cols: usize) -> (sys: Vec<Request>)
        requires
            self.wf(),
            1 <= rows <= u32::MAX,
            1 <= cols <= u32::MAX,
        ensures
            views(sys@) == grid_system(self.slots(), rows as int, cols as int),
    {
        let ghost s = self.slots();
        let mut out: Vec<Request> = Vec::new();
        let mut c: usize = 0;
        while c < cols
            invariant
                c <= cols,
                views(out@) == bottom_edits(c as int),
            decreases cols - c,
        {
            push_req(&mut out, Request::Edit(VarRef::Bottom(c), BOTTOM_MARGIN_SUGGESTION));
            c = c + 1;
        }
        let ghost b1 = views(out@);
        let mut r: usize = 0;
        while r < rows
            invariant
                self.wf(),
                s == self.slots(),
                r <= rows,
                rows <= u32::MAX,
                1 <= cols <= u32::MAX,
                views(out@) == b1 + rows_reqs(s, cols as int, r as int),
            decreases rows - r,
        {
            self.push_row(&mut out, r, cols);
            proof {
                assert(views(out@) =~= b1 + rows_reqs(s, cols as int, r + 1));
            }
            r = r + 1;
        }
        let ghost b2 = views(out@);
        let mut c: usize = 0;
        while c < cols
            invariant
                c <= cols,
                1 <= rows <= u32::MAX,
                cols <= u32::MAX,
                views(out@) == b2 + columns_reqs(rows as int, cols as int, c as int),
            decreases cols - c,
        {
            push_column(&mut out, c, rows, cols);
            proof {
                assert(views(out@) =~= b2 + columns_reqs(rows as int, cols as int, c + 1));
            }
            c = c + 1;
        }
        push_req(&mut out, Request::Edit(VarRef::ContainerWidth, DEFAULT_CONTAINER_SIZE));
        push_req(&mut out, Request::Edit(VarRef::ContainerHeight, DEFAULT_CONTAINER_SIZE));
        proof {
            assert(views(out@) =~= grid_system(s, rows as int, cols as int));
        }
        out
    }

    /// Sets the geometry of the slot at index `j`.
    fn set_geometry(&mut self, j: usize, l: u32, w: u32, t: u32, h: u32)
        requires
            j < old(self).slots().len(),
        ensures
            final(self).slots() == old(self).slots().update(
                j as int,
                Slot { cell: with_geometry(old(self).slots()[j as int].cell, l, w, t, h), ..old(self).slots()[j as int] },
            ),
            final(self).cursor() == old(self).cursor(),
            final(self).wrap_width() == old(self).wrap_width(),
    {
        self.grid[j].cell.set_leading(l);
        self.grid[j].cell.set_width(w);
        self.grid[j].cell.set_top(t);
        self.grid[j].cell.set_height(h);
    }

    /// Gives every cell in the first `rows` rows and `cols` columns its
    /// geometry from the solved values, walking the grid row by row.
    fn apply_solution(&mut self, sol: &Solution, rows: usize, cols: usize)
        requires
            old(self).wf(),
            rows >= 1,
            cols >= 1,
            rows <= u32::MAX,
            cols <= u32::MAX,
            solution_shaped(*sol, rows as int, cols as int),
        ensures
            final(self).wf(),
            final(self).cursor() == old(self).cursor(),
            final(self).wrap_width() == old(self).wrap_width(),
            final(self).slots() == placed(old(self).slots(), *sol, rows as int, cols as int),
    {
        let ghost s = self.slots();
        let ghost target = placed(s, *sol, rows as int, cols as int);
        let mut y: Vec<u64> = Vec::new();
        let mut c: usize = 0;
        while c < cols
            invariant
                c <= cols,
                solution_shaped(*sol, rows as int, cols as int),
                y@.len() == c,
                forall|k: int| 0 <= k < c ==> #[trigger] y@[k] == clamp_u32(top_at(*sol, s, 0, k)),
            decreases cols - c,
        {
            y.push(sol.top[c] as u64);
            c = c + 1;
        }
        let mut row: usize = 0;
        while row < rows
            invariant
                self.wf(),
                self.cursor() == old(self).cursor(),
                self.wrap_width() == old(self).wrap_width(),
                row <= rows,
                rows <= u32::MAX,
                cols <= u32::MAX,
                cols >= 1,
                solution_shaped(*sol, rows as int, cols as int),
                target == placed(s, *sol, rows as int, cols as int),
                slots_ok(s),
                s == old(self).slots(),
                y@.len() == cols,
                forall|k: int| 0 <= k < cols ==> #[trigger] y@[k] <= u32::MAX,
                row < rows ==> forall|k: int| 0 <= k < cols ==> #[trigger] y@[k] == clamp_u32(top_at(*sol, s, row as int, k)),
                self.slots().len() == s.len(),
                forall|k: int|
                    0 <= k < s.len() ==> #[trigger] self.slots()[k] == if s[k].position.col < cols && s[k].position.row
                        < row {
                        target[k]
                    } else {
                        s[k]
                    },
            decreases rows - row,
        {
            let mut x: u64 = sol.left[row] as u64;
            let mut i: usize = 0;
            while i < cols
                invariant
                    self.wf(),
                    self.cursor() == old(self).cursor(),
                    self.wrap_width() == old(self).wrap_width(),
                    i <= cols,
                    row < rows,
                    rows <= u32::MAX,
                    cols <= u32::MAX,
                    solution_shaped(*sol, rows as int, cols as int),
                    target == placed(s, *sol, rows as int, cols as int),
                    slots_ok(s),
                    i < cols ==> x == clamp_u32(leading_at(*sol, row as int, i as int)),
                    x <= u32::MAX,
                    y@.len() == cols,
                    forall|k: int| 0 <= k < cols ==> #[trigger] y@[k] <= u32::MAX,
                    forall|k: int| i <= k < cols ==> #[trigger] y@[k] == clamp_u32(top_at(*sol, s, row as int, k)),
                    row + 1 < rows ==> forall|k: int| 0 <= k < i ==> #[trigger] y@[k] == clamp_u32(top_at(*sol, s, row + 1, k)),
                    self.slots().len() == s.len(),
                    forall|k: int|
                        0 <= k < s.len() ==> #[trigger] self.slots()[k] == if s[k].position.col < cols && (
                        s[k].position.row < row || (s[k].position.row == row && s[k].position.col < i)) {
                            target[k]
                        } else {
                            s[k]
                        },
                decreases cols - i,
            {
                let ghost cur = self.slots();
                proof {
                    assert forall|a: int, b: int| 0 <= a < b < cur.len() implies before(
                        #[trigger] cur[a].position,
                        #[trigger] cur[b].position,
                    ) by {
                        assert(cur[a].position == s[a].position);
                        assert(cur[b].position == s[b].position);
                    }
                }
                let (j, found) = self.find_slot(LayoutPosition::new(i as u32, row as u32));
                let w = sol.width[row][i];
                let h = sol.height[row][i];
                let ghost yi = y@[i as int];
                proof {
                    assert(occupied(s, i as int, row as int) == found) by {
                        if occupied(s, i as int, row as int) {
                            let k = choose|k: int| 0 <= k < s.len() && (#[trigger] s[k]).position.col == i && s[k].position.row == row;
                            assert(cur[k].position == s[k].position);
                        }
                        if found {
                            assert(cur[j as int].position == s[j as int].position);
                        }
                    }
                }
                if found {
                    self.set_geometry(j, x as u32, w, y[i] as u32, h);
                    let ny = add_clamped(y[i], h);
                    y.set(i, ny);
                }
                x = add_clamped(x, w);
                if i + 1 < cols {
                    x = add_clamped(x, sol.gap[row][i]);
                }
                if row + 1 < rows {
                    let ny = add_clamped(y[i], sol.below[row][i]);
                    y.set(i, ny);
                }
                proof {
                    let now = self.slots();
                    let l = leading_at(*sol, row as int, i as int);
                    if i + 1 < cols {
                        assert(l >= 0) by { lemma_leading_nonneg(*sol, row as int, i as int, cols as int); }
                        lemma_clamp_add(l, w as int);
                        lemma_clamp_add(l + w, sol.gap@[row as int]@[i as int] as int);
                        assert(x == clamp_u32(leading_at(*sol, row as int, i + 1)));
                    }
                    if row + 1 < rows {
                        let tp = top_at(*sol, s, row as int, i as int);
                        assert(tp >= 0) by { lemma_top_nonneg(*sol, s, row as int, i as int, rows as int, cols as int); }
                        let hh: int = if found { h as int } else { 0 };
                        lemma_clamp_add(tp, hh);
                        lemma_clamp_add(tp + hh, sol.below@[row as int]@[i as int] as int);
                        assert(y@[i as int] == clamp_u32(top_at(*sol, s, row + 1, i as int)));
                    }
                    assert forall|k: int| 0 <= k < s.len() implies #[trigger] now[k] == if s[k].position.col < cols && (
                    s[k].position.row < row || (s[k].position.row == row && s[k].position.col < i + 1)) {
                        target[k]
                    } else {
                        s[k]
                    } by {
                        if found && k == j {
                            assert(s[k].position.col == i && s[k].position.row == row);
                        } else if s[k].position.col == i && s[k].position.row == row {
                            assert(occupied(s, i as int, row as int));
                            assert(found);
                            lemma_slot_index(s, k);
                            lemma_slot_index(s, j as int);
                        }
                    }
                }
                i = i + 1;
            }
            row = row + 1;
        }
        proof {
            assert(self.slots() =~= target);
        }
    }

    /// Hands `sys`, the system of the first `rows` rows and `cols` columns,
    /// to a fresh solver, request by request, and gives each of their cells
    /// its geometry from the solved values. Fails, changing nothing, when the
    /// solver refuses a request.
    fn calculate_row(&mut self, sys: &Vec<Request>, rows: usize, cols: usize) -> (r: Result<(), LayoutError>)
        requires
            old(self).wf(),
            views(sys@) == grid_system(old(self).slots(), rows as int, cols as int),
            rows >= 1,
            cols >= 1,
            rows <= u32::MAX,
            cols <= u32::MAX,
        ensures
            final(self).wf(),
            final(self).cursor() == old(self).cursor(),
            final(self).wrap_width() == old(self).wrap_width(),
            r is Err ==> r == Err::<(), LayoutError>(LayoutError::Solver) && final(self).slots() == old(self).slots(),
            r is Ok ==> exists|sol: Solution|
                solution_shaped(sol, rows as int, cols as int) && #[trigger] placed(
                    old(self).slots(),
                    sol,
                    rows as int,
                    cols as int,
                ) == final(self).slots(),
    {
        let mut solver = Solver::new();
        let v = make_vars(rows, cols);
        build_system(&mut solver, &v, sys)?;
        let sol = read_solution(&solver, &v, rows, cols);
        self.apply_solution(&sol, rows, cols);
        Ok(())
    }

    /// How many slots lie in row `r`.
    fn count_in_row(&self, r: u32) -> (n: usize)
        ensures
            n == count_row(self.slots(), r as int, self.slots().len() as int),
    {
        let mut n: usize = 0;
        let mut k: usize = 0;
        while k < self.grid.len()
            invariant
                k <= self.slots().len(),
                n == count_row(self.slots(), r as int, k as int),
                n <= k,
            decreases self.slots().len() - k,
        {
            if self.grid[k].position.row == r {
                n = n + 1;
            }
            k = k + 1;
        }
        n
    }

    /// Lays out the grid: as many rows as reach the last occupied one, as many
    /// columns as the wrap width (or the longest row), solved and written
    /// into the cells.
    fn internal_update(&mut self) -> (r: Result<(), LayoutError>)
        requires
            old(self).wf(),
        ensures
            final(self).wf(),
            final(self).cursor() == old(self).cursor(),
            final(self).wrap_width() == old(self).wrap_width(),
            r == Err::<(), LayoutError>(LayoutError::EmptyGrid) <==> old(self).slots().len() == 0,
            r == Err::<(), LayoutError>(LayoutError::OutOfRange) <==> old(self).slots().len() > 0 && layout_columns(
                old(self).slots(),
                old(self).wrap_width() as int,
            ) > u32::MAX,
            r is Err ==> final(self).slots() == old(self).slots(),
            r is Err ==> r == Err::<(), LayoutError>(LayoutError::EmptyGrid) || r == Err::<(), LayoutError>(
                LayoutError::OutOfRange,
            ) || r == Err::<(), LayoutError>(LayoutError::Solver),
            r is Ok ==> laid_out(old(self).slots(), old(self).wrap_width() as int, final(self).slots()),
    {
        let ghost s = self.slots();
        let n = self.grid.len();
        if n == 0 {
            return Err(LayoutError::EmptyGrid);
        }
        let mut num_columns: usize;
        if self.wrap == 0 {
            num_columns = 0;
            let mut k: usize = 0;
            while k < n
                invariant
                    s == self.slots(),
                    n == s.len(),
                    k <= n,
                    num_columns == longest_row_upto(s, k as int),
                decreases n - k,
            {
                let c = self.count_in_row(self.grid[k].position.row);
                if c > num_columns {
                    num_columns = c;
                }
                k = k + 1;
            }
            proof {
                lemma_count_row_positive(s, 0, n as int);
                lemma_longest_row_at_least(s, 0, n as int);
            }
        } else {
            num_columns = self.wrap as usize;
        }
        if num_columns > u32::MAX as usize {
            return Err(LayoutError::OutOfRange);
        }
        let num_rows = self.grid[n - 1].position.row as usize + 1;
        proof {
            assert(num_rows as int == layout_rows(s));
            assert(num_columns as int == layout_columns(s, self.wrap as int));
        }
        let sys = self.system_of(num_rows, num_columns);
        let r = self.calculate_row(&sys, num_rows, num_columns);
        proof {
            if r is Ok {
                let sol = choose|sol: Solution|
                    solution_shaped(sol, num_rows as int, num_columns as int) && #[trigger] placed(
                        s,
                        sol,
                        num_rows as int,
                        num_columns as int,
                    ) == self.slots();
                assert(placed(s, sol, layout_rows(s), layout_columns(s, self.wrap as int)) == self.slots());
            }
        }
        r
    }

    /// Runs a placement script: each `Add` places a component sized by
    /// `standard_size` in the next free cell, each `Span` marks cells at the
    /// cursor as spanned, each `Wrap` starts a new row; then the grid is laid
    /// out. Stops at the first step that fails.
    pub fn access<F: Fn(WidgetHandle) -> (u32, u32)>(&mut self, script: &AccessLayout, standard_size: F) -> (r:
        Result<(), LayoutError>)
        requires
            old(self).wf(),
            forall|h: WidgetHandle| #[trigger] standard_size.requires((h,)),
        ensures
            final(self).wf(),
            final(self).wrap_width() == old(self).wrap_width(),
            exists|sizes: Seq<(u32, u32)>|
                {
                    let outcome = run_script(
                        (cell_map(old(self).slots()), old(self).cursor()),
                        old(self).wrap_width() as int,
                        script.actions(),
                        sizes,
                    );
                    &&& #[trigger] sizes_fit(
                        standard_size,
                        (cell_map(old(self).slots()), old(self).cursor()),
                        old(self).wrap_width() as int,
                        script.actions(),
                        sizes,
                    )
                    &&& outcome is Err ==> r == Err::<(), LayoutError>(outcome->Err_0)
                    &&& outcome is Ok ==> final(self).cursor() == outcome->Ok_0.1 && exists|mid: Seq<Slot>|
                        #[trigger] slots_ok(mid) && cell_map(mid) == outcome->Ok_0.0 && (mid.len() == 0 ==> r
                            == Err::<(), LayoutError>(LayoutError::EmptyGrid)) && (r is Err ==> final(self).slots()
                            == mid) && (r is Ok ==> laid_out(mid, old(self).wrap_width() as int, final(self).slots()))
                },
    {
        let ghost acts = script.actions();
        let ghost st0 = (cell_map(self.slots()), self.cursor());
        let ghost w = self.wrap as int;
        let ghost mut sizes: Seq<(u32, u32)> = Seq::empty();
        let mut k: usize = 0;
        while k < script.actions.len()
            invariant
                self.wf(),
                self.wrap_width() == old(self).wrap_width(),
                w == old(self).wrap_width(),
                acts == script.actions(),
                st0 == (cell_map(old(self).slots()), old(self).cursor()),
                k <= acts.len(),
                sizes.len() == k,
                forall|i: int| 0 <= i < k && (#[trigger] acts[i]) is Add ==> standard_size.ensures((acts[i]->item,), sizes[i]),
                run_script(st0, w, acts.subrange(0, k as int), sizes) == Ok::<
                    (Map<(int, int), Cell>, (int, int)),
                    LayoutError,
                >((cell_map(self.slots()), self.cursor())),
                forall|h: WidgetHandle| #[trigger] standard_size.requires((h,)),
            decreases acts.len() - k,
        {
            let ghost pre = (cell_map(self.slots()), self.cursor());
            let ghost old_slots = self.slots();
            let ghost old_cursor = self.cursor();
            let action = script.actions[k];
            let ghost mut size: (u32, u32) = (0, 0);
            let step_result = match action {
                Action::Add { item } => {
                    let (width, height) = standard_size(item);
                    proof {
                        size = (width, height);
                    }
                    self.add(item, width, height)
                },
                Action::Wrap => self.wrap_row(),
                Action::Span(x, y) => self.span(x, y),
            };
            proof {
                let a2 = actions_through(acts, k as int);
                let s2 = sizes.push(size);
                assert(a2.drop_last() == acts.subrange(0, k as int));
                assert(s2.drop_last() == sizes);
                assert(a2.last() == action);
                match action {
                    Action::Add { item } => {
                        let j = choose|j: nat|
                            {
                                let target = walk(old_cursor, w, j);
                                &&& #[trigger] first_free(old_slots, old_cursor, w, j)
                                &&& (step_result is Ok <==> target.0 < u32::MAX && target.1 < u32::MAX)
                                &&& step_result is Ok ==> self.cursor() == target && cell_map(self.slots()) == cell_map(
                                    old_slots,
                                ).insert(
                                    target,
                                    Cell::Component(
                                        Component {
                                            item,
                                            standard_width: size.0,
                                            standard_height: size.1,
                                            leading: 0,
                                            width: 0,
                                            top: 0,
                                            height: 0,
                                        },
                                    ),
                                )
                            };
                        lemma_settle(old_slots, old_cursor, w, j);
                    },
                    Action::Wrap => {},
                    Action::Span(x, y) => {
                        assert(pre.0.contains_key(old_cursor) == occupied(old_slots, old_cursor.0, old_cursor.1));
                    },
                }
                if step_result is Ok {
                    assert(run_script(st0, w, a2, s2) == Ok::<(Map<(int, int), Cell>, (int, int)), LayoutError>(
                        (cell_map(self.slots()), self.cursor()),
                    ));
                } else {
                    assert(run_script(st0, w, a2, s2) == Err::<(Map<(int, int), Cell>, (int, int)), LayoutError>(
                        step_result->Err_0,
                    ));
                }
            }
            if step_result.is_err() {
                proof {
                    let full = acts;
                    // Complete the sizes with anything for the steps never taken.
                    let rest = Seq::new((acts.len() - k - 1) as nat, |i: int| (0u32, 0u32));
                    let all = sizes.push(size) + rest;
                    assert(all.subrange(0, k + 1) == sizes.push(size));
                    lemma_run_script_stops(st0, w, acts, all, k + 1);
                    assert(sizes_fit(standard_size, st0, w, acts, all)) by {
                        assert forall|i: int|
                            0 <= i < acts.len() && (#[trigger] acts[i]) is Add && run_script(
                                st0,
                                w,
                                acts.subrange(0, i),
                                all.subrange(0, i),
                            ) is Ok implies standard_size.ensures((acts[i]->item,), all[i]) by {
                            if i < k {
                                assert(all[i] == sizes[i]);
                            } else if i == k {
                                assert(all[i] == size);
                            } else {
                                let ai = acts.subrange(0, i);
                                let si = all.subrange(0, i);
                                assert(ai.subrange(0, k + 1) == actions_through(acts, k as int));
                                assert(si.subrange(0, k + 1) == sizes.push(size));
                                lemma_run_script_stops(st0, w, ai, si, k + 1);
                            }
                        }
                    }
                }
                return step_result;
            }
            proof {
                sizes = sizes.push(size);
            }
            k = k + 1;
        }
        proof {
            assert(acts.subrange(0, k as int) == acts);
        }
        let ghost mid = self.slots();
        let r = self.internal_update();
        proof {
            assert(sizes_fit(standard_size, st0, w, acts, sizes)) by {
                assert forall|i: int|
                    0 <= i < acts.len() && (#[trigger] acts[i]) is Add && run_script(
                        st0,
                        w,
                        acts.subrange(0, i),
                        sizes.subrange(0, i),
                    ) is Ok implies standard_size.ensures((acts[i]->item,), sizes[i]) by {}
            }
            assert(slots_ok(mid));
        }
        r
    }

    /// The layout result: every component's widget with its (leading, top,
    /// width, height) relative to the container, in row-major order.
    pub fn update(&self) -> (r: Vec<(WidgetHandle, (u32, u32, u32, u32))>)
        ensures
            r@ == components_upto(self.slots(), self.slots().len() as int),
    {
        let mut out: Vec<(WidgetHandle, (u32, u32, u32, u32))> = Vec::new();
        let mut k: usize = 0;
        while k < self.grid.len()
            invariant
                k <= self.slots().len(),
                out@ == components_upto(self.slots(), k as int),
            decreases self.slots().len() - k,
        {
            match self.grid[k].cell {
                Cell::Component(c) => {
                    out.push((c.item, (c.leading, c.top, c.width, c.height)));
                },
                Cell::Span(_) => {},
            }
            k = k + 1;
        }
        out
    }

    /// Moves the cursor forward over occupied cells to the first free one.
    /// Fails when that cell lies outside the coordinate range.
    fn move_position(&mut self) -> (r: Result<(), LayoutError>)
        requires
            old(self).wf(),
        ensures
            final(self).slots() == old(self).slots(),
            final(self).wrap_width() == old(self).wrap_width(),
            final(self).wf(),
            r is Err ==> r == Err::<(), LayoutError>(LayoutError::OutOfRange),
            exists|j: nat|
                {
                    let target = walk(old(self).cursor(), old(self).wrap_width() as int, j);
                    &&& #[trigger] first_free(old(self).slots(), old(self).cursor(), old(self).wrap_width() as int, j)
                    &&& (r is Ok <==> target.0 < u32::MAX && target.1 < u32::MAX)
                    &&& r is Ok ==> final(self).cursor() == target
                },
    {
        let ghost s = self.slots();
        let ghost c0 = self.cursor();
        let ghost w = self.wrap as int;
        let ghost mut steps: nat = 0;
        let n = self.grid.len();
        let mut j: usize = 0;
        loop
            invariant
                s == self.slots(),
                s == old(self).slots(),
                c0 == old(self).cursor(),
                w == old(self).wrap_width(),
                w == self.wrap_width(),
                n == s.len(),
                slots_ok(s),
                j <= n,
                self.cursor().0 < u32::MAX,
                self.cursor().1 < u32::MAX,
                self.cursor() == walk(c0, w, steps),
                forall|i: nat| i < steps ==> occupied(s, #[trigger] walk(c0, w, i).0, walk(c0, w, i).1),
                forall|k: int|
                    0 <= k < j ==> before(
                        #[trigger] s[k].position,
                        LayoutPosition { col: self.current_x, row: self.current_y },
                    ),
            decreases n - j,
        {
            let pos = LayoutPosition { col: self.current_x, row: self.current_y };
            while j < n && (self.grid[j].position.row < pos.row || (self.grid[j].position.row == pos.row
                && self.grid[j].position.col < pos.col))
                invariant
                    s == self.slots(),
                    n == s.len(),
                    j <= n,
                    forall|k: int| 0 <= k < j ==> before(#[trigger] s[k].position, pos),
                decreases n - j,
            {
                j = j + 1;
            }
            if j < n && self.grid[j].position.row == pos.row && self.grid[j].position.col == pos.col {
                proof {
                    assert(occupied(s, walk(c0, w, steps).0, walk(c0, w, steps).1)) by {
                        assert(s[j as int].position.col == walk(c0, w, steps).0);
                    }
                }
                let (nx, ny) = if self.wrap > 0 && self.current_x + 1 >= self.wrap {
                    (0u32, self.current_y + 1)
                } else {
                    (self.current_x + 1, self.current_y)
                };
                proof {
                    steps = steps + 1;
                    assert(walk(c0, w, steps) == step(walk(c0, w, (steps - 1) as nat), w));
                }
                if nx == u32::MAX || ny == u32::MAX {
                    proof {
                        let t = walk(c0, w, steps);
                        assert(!occupied(s, t.0, t.1)) by {
                            if occupied(s, t.0, t.1) {
                                let k = choose|k: int| 0 <= k < s.len() && (#[trigger] s[k]).position.col == t.0 && s[k].position.row == t.1;
                            }
                        }
                    }
                    assert(first_free(s, c0, w, steps));
                    return Err(LayoutError::OutOfRange);
                }
                self.current_x = nx;
                self.current_y = ny;
                let ghost j0 = j as int;
                j = j + 1;
                proof {
                    let np = LayoutPosition { col: self.current_x, row: self.current_y };
                    assert(before(pos, np));
                    assert forall|k: int| 0 <= k < j implies before(#[trigger] s[k].position, np) by {
                        if k < j0 {
                            assert(before(s[k].position, pos));
                        } else {
                            assert(s[k].position.col == pos.col && s[k].position.row == pos.row);
                        }
                    }
                }
            } else {
                proof {
                    let t = walk(c0, w, steps);
                    assert(!occupied(s, t.0, t.1)) by {
                        if occupied(s, t.0, t.1) {
                            let k = choose|k: int| 0 <= k < s.len() && (#[trigger] s[k]).position.col == t.0 && s[k].position.row == t.1;
                            if k >= j {
                                if k > j {
                                    assert(before(s[j as int].position, s[k].position));
                                }
                            }
                        }
                    }
                }
                assert(first_free(s, c0, w, steps));
                return Ok(());
            }
        }
    }
}

} // verus!
