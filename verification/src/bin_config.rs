//! Bin configuration: the integer and boolean parts of a bin TOML, the
//! compartments that divider merges form, the divider wall faces that can
//! carry easy grabs, and the normalized label interface of a bin.
use vstd::prelude::*;
use crate::config::ConfigKind;
use crate::strings::{decimal_digits, decimal_string, display_names, name_list, push_str, strings_view};

verus! {

/// The bin TOML schema version of a full bin carrier.
pub const BIN_CONFIG_VERSION: u32 = 1;

/// The bin TOML schema version of a constituent bin body.
pub const BIN_BODY_CONFIG_VERSION: u32 = 2;

/// The Gridfinity base under a bin.
#[derive(Debug, Clone, Copy, PartialEq, Eq, Structural)]
pub struct BaseConfig {
    pub enabled: bool,
    pub rounded_corners: bool,
    pub magnets: bool,
    pub connector_cutouts: bool,
    pub connector_pin: bool,
}

impl Default for BaseConfig {
    fn default() -> (r: Self)
        ensures
            r == (BaseConfig {
                enabled: true,
                rounded_corners: false,
                magnets: true,
                connector_cutouts: true,
                connector_pin: true,
            }),
    {
        BaseConfig {
            enabled: true,
            rounded_corners: false,
            magnets: true,
            connector_cutouts: true,
            connector_pin: true,
        }
    }
}

/// The bin body.
#[derive(Debug, Clone)]
pub struct BinBodyConfig {
    pub enabled: bool,
    pub nesting: bool,
    pub swappable_rim: bool,
    pub spring_compensation: bool,
    pub additional_rim_expansion: String,
    pub tub: bool,
}

impl Default for BinBodyConfig {
    fn default() -> (r: Self)
        ensures
            r.enabled && r.nesting && r.swappable_rim && r.spring_compensation && r.tub,
            r.additional_rim_expansion@ == "0mm"@,
    {
        BinBodyConfig {
            enabled: true,
            nesting: true,
            swappable_rim: true,
            spring_compensation: true,
            additional_rim_expansion: "0mm".to_owned(),
            tub: true,
        }
    }
}

/// When the swappable label gets print supports.
#[derive(Debug, Clone, Copy, PartialEq, Eq, Structural)]
pub enum SupportsMode {
    Always,
    Auto,
    Off,
}

/// Which cells of the divider grid are merged into one compartment: the
/// inclusive column and row ranges of a rectangle.
#[derive(Debug, Clone, Copy, PartialEq, Eq)]
pub struct DividerMerge {
    pub columns: [usize; 2],
    pub rows: [usize; 2],
}

/// The divider grid: column and row track sizes, and merged rectangles.
#[derive(Debug, Clone)]
pub struct DividerConfig {
    pub columns: Vec<String>,
    pub rows: Vec<String>,
    pub merges: Vec<DividerMerge>,
}

impl Default for DividerConfig {
    fn default() -> (r: Self)
        ensures
            r.columns@.len() == 3,
            r.rows@.len() == 2,
            forall|i: int| 0 <= i < 3 ==> #[trigger] r.columns@[i]@ == "auto"@,
            forall|i: int| 0 <= i < 2 ==> #[trigger] r.rows@[i]@ == "auto"@,
            r.merges@.len() == 0,
    {
        let mut columns: Vec<String> = Vec::new();
        columns.push("auto".to_owned());
        columns.push("auto".to_owned());
        columns.push("auto".to_owned());
        let mut rows: Vec<String> = Vec::new();
        rows.push("auto".to_owned());
        rows.push("auto".to_owned());
        DividerConfig { columns, rows, merges: Vec::new() }
    }
}

/// Which divider faces get easy grabs: none, the listed ones, or every face
/// on one side.
#[derive(Debug, Clone, Copy, PartialEq, Eq, Structural)]
pub enum EasyGrabMode {
    Off,
    Custom,
    All,
}

/// A side of a compartment; south is the next row, east the next column.
#[derive(Debug, Clone, Copy, PartialEq, Eq, Structural)]
pub enum Side {
    North,
    South,
    East,
    West,
}

impl Side {
    /// The side's name in the model configuration.
    pub fn as_str(self) -> (r: &'static str)
        ensures
            r@ == match self {
                Side::North => "north"@,
                Side::South => "south"@,
                Side::East => "east"@,
                Side::West => "west"@,
            },
    {
        match self {
            Side::North => "north",
            Side::South => "south",
            Side::East => "east",
            Side::West => "west",
        }
    }
}

/// One custom easy grab: a wall face and an optional radius.
#[derive(Debug, Clone)]
pub struct EasyGrabFace {
    pub side: Side,
    pub columns: [usize; 2],
    pub rows: [usize; 2],
    pub radius: Option<String>,
}

/// The easy grabs of a bin.
#[derive(Debug, Clone)]
pub struct EasyGrabConfig {
    pub mode: EasyGrabMode,
    pub side: Side,
    pub radius: String,
    pub faces: Vec<EasyGrabFace>,
}

impl Default for EasyGrabConfig {
    fn default() -> (r: Self)
        ensures
            r.mode == EasyGrabMode::All,
            r.side == Side::South,
            r.radius@ == "21mm"@,
            r.faces@.len() == 0,
    {
        EasyGrabConfig {
            mode: EasyGrabMode::All,
            side: Side::South,
            radius: "21mm".to_owned(),
            faces: Vec::new(),
        }
    }
}

/// A part that a bin export can be restricted to.
#[derive(Debug, Clone, Copy, PartialEq, Eq, Structural)]
pub enum BinComponent {
    All,
    Bin,
    Base,
    SwappableRim,
    SwappableLabel,
    ConnectorPin,
}

impl BinComponent {
    /// The exported part's name; `None` for all parts.
    pub fn part_name(self) -> (r: Option<&'static str>)
        ensures
            match self {
                BinComponent::All => r is None,
                BinComponent::Bin => r matches Some(n) && n@ == "Bin"@,
                BinComponent::Base => r matches Some(n) && n@ == "Base"@,
                BinComponent::SwappableRim => r matches Some(n) && n@ == "SwappableRim"@,
                BinComponent::SwappableLabel => r matches Some(n) && n@ == "SwappableLabel"@,
                BinComponent::ConnectorPin => r matches Some(n) && n@ == "ConnectorPin"@,
            },
    {
        match self {
            BinComponent::All => None,
            BinComponent::Bin => Some("Bin"),
            BinComponent::Base => Some("Base"),
            BinComponent::SwappableRim => Some("SwappableRim"),
            BinComponent::SwappableLabel => Some("SwappableLabel"),
            BinComponent::ConnectorPin => Some("ConnectorPin"),
        }
    }
}

/// How a constituent bin meets a rim or a label.
#[derive(Debug, Clone, Copy, PartialEq, Eq, Structural)]
pub enum InterfaceMode {
    Off,
    Integrated,
    Swappable,
}

/// The rim interface of a constituent bin.
#[derive(Debug, Clone, Copy, PartialEq, Eq, Structural)]
pub struct RimInterfaceConfig {
    pub mode: InterfaceMode,
}

impl Default for RimInterfaceConfig {
    fn default() -> (r: Self)
        ensures
            r.mode == InterfaceMode::Swappable,
    {
        RimInterfaceConfig { mode: InterfaceMode::Swappable }
    }
}

/// The label interface of a constituent bin.
#[derive(Debug, Clone)]
pub struct LabelInterfaceConfig {
    pub mode: InterfaceMode,
    pub depth: String,
    pub supports: SupportsMode,
}

impl Default for LabelInterfaceConfig {
    fn default() -> (r: Self)
        ensures
            r.mode == InterfaceMode::Swappable,
            r.depth@ == "10mm"@,
            r.supports == SupportsMode::Auto,
    {
        LabelInterfaceConfig {
            mode: InterfaceMode::Swappable,
            depth: "10mm".to_owned(),
            supports: SupportsMode::Auto,
        }
    }
}

/// A serde default that is `true`.
pub fn default_true() -> (r: bool)
    ensures
        r,
{
    true
}

/// Why the merges of a divider grid were rejected; merges count from one.
#[derive(Debug, Clone, Copy, PartialEq, Eq, Structural)]
pub enum MergeError {
    ColumnsOutOfRange { merge: usize },
    RowsOutOfRange { merge: usize },
}

pub open spec fn merge_columns_ok(m: DividerMerge, columns: int) -> bool {
    m.columns[0] <= m.columns[1] && m.columns[1] < columns
}

pub open spec fn merge_rows_ok(m: DividerMerge, rows: int) -> bool {
    m.rows[0] <= m.rows[1] && m.rows[1] < rows
}

/// The first merge, from index `i` on, that leaves the grid.
pub open spec fn merge_fault(merges: Seq<DividerMerge>, columns: int, rows: int, i: int) -> Option<
    MergeError,
>
    decreases merges.len() - i,
{
    if i < 0 || i >= merges.len() {
        None
    } else if !merge_columns_ok(merges[i], columns) {
        Some(MergeError::ColumnsOutOfRange { merge: (i + 1) as usize })
    } else if !merge_rows_ok(merges[i], rows) {
        Some(MergeError::RowsOutOfRange { merge: (i + 1) as usize })
    } else {
        merge_fault(merges, columns, rows, i + 1)
    }
}

/// Every merge lies inside a grid of the given size.
pub open spec fn merges_fit(merges: Seq<DividerMerge>, columns: int, rows: int) -> bool {
    forall|i: int|
        0 <= i < merges.len() ==> merge_columns_ok(#[trigger] merges[i], columns) && merge_rows_ok(
            merges[i],
            rows,
        )
}

proof fn lemma_merge_fault_none(merges: Seq<DividerMerge>, columns: int, rows: int, i: int)
    requires
        0 <= i <= merges.len(),
        merge_fault(merges, columns, rows, i) is None,
    ensures
        forall|k: int|
            i <= k < merges.len() ==> merge_columns_ok(#[trigger] merges[k], columns) && merge_rows_ok(
                merges[k],
                rows,
            ),
    decreases merges.len() - i,
{
    if i < merges.len() {
        lemma_merge_fault_none(merges, columns, rows, i + 1);
    }
}

/// Checks that every merge names a non-empty rectangle inside the grid.
pub fn validate_merges(divider: &DividerConfig, columns: usize, rows: usize) -> (r: Result<
    (),
    MergeError,
>)
    ensures
        r == match merge_fault(divider.merges@, columns as int, rows as int, 0) {
            Some(e) => Err::<(), MergeError>(e),
            None => Ok(()),
        },
        r is Ok ==> merges_fit(divider.merges@, columns as int, rows as int),
{
    let merges = &divider.merges;
    let mut i: usize = 0;
    while i < merges.len()
        invariant
            i <= merges.len(),
            merges == &divider.merges,
            merge_fault(merges@, columns as int, rows as int, 0) == merge_fault(
                merges@,
                columns as int,
                rows as int,
                i as int,
            ),
        decreases merges.len() - i,
    {
        let m = merges[i];
        if m.columns[0] > m.columns[1] || m.columns[1] >= columns {
            return Err(MergeError::ColumnsOutOfRange { merge: i + 1 });
        }
        if m.rows[0] > m.rows[1] || m.rows[1] >= rows {
            return Err(MergeError::RowsOutOfRange { merge: i + 1 });
        }
        i = i + 1;
    }
    proof {
        lemma_merge_fault_none(merges@, columns as int, rows as int, 0);
    }
    Ok(())
}

impl MergeError {
    /// The text that reports this error.
    pub fn message(&self) -> (m: String)
        ensures
            m@ == match self {
                MergeError::ColumnsOutOfRange { merge } => "divider merge "@ + decimal_digits(
                    *merge as nat,
                ) + " columns are out of range"@,
                MergeError::RowsOutOfRange { merge } => "divider merge "@ + decimal_digits(
                    *merge as nat,
                ) + " rows are out of range"@,
            },
    {
        let mut m = String::new();
        push_str(&mut m, "divider merge ");
        match self {
            MergeError::ColumnsOutOfRange { merge } => {
                let n = decimal_string(*merge as u64);
                push_str(&mut m, n.as_str());
                push_str(&mut m, " columns are out of range");
            },
            MergeError::RowsOutOfRange { merge } => {
                let n = decimal_string(*merge as u64);
                push_str(&mut m, n.as_str());
                push_str(&mut m, " rows are out of range");
            },
        }
        m
    }
}

/// The index of a grid cell in row-major order.
pub open spec fn cell(columns: int, column: int, row: int) -> int {
    row * columns + column
}

/// Each cell labeled with itself: every cell its own compartment.
pub open spec fn singletons(n: int) -> Seq<int> {
    Seq::new(n as nat, |i: int| i)
}

/// Moves every cell labeled `from` into the compartment labeled `to`.
pub open spec fn relabel(labels: Seq<int>, from: int, to: int) -> Seq<int> {
    labels.map_values(|l: int| if l == from { to } else { l })
}

/// Joins the compartment of cell `a` into that of cell `b`.
pub open spec fn join(labels: Seq<int>, a: int, b: int) -> Seq<int> {
    relabel(labels, labels[a], labels[b])
}

/// Joins the cells `(c0..c, row)` one by one into the compartment of `base`.
pub open spec fn join_row(labels: Seq<int>, columns: int, base: int, row: int, c0: int, c: int) -> Seq<
    int,
>
    decreases c - c0,
{
    if c <= c0 {
        labels
    } else {
        join(join_row(labels, columns, base, row, c0, c - 1), cell(columns, c - 1, row), base)
    }
}

/// The first cell of a merge, into whose compartment its cells are joined.
pub open spec fn merge_base(columns: int, m: DividerMerge) -> int {
    cell(columns, m.columns[0] as int, m.rows[0] as int)
}

/// Joins the rows `m.rows[0]..r` of a merge, row by row.
pub open spec fn join_block(labels: Seq<int>, columns: int, m: DividerMerge, r: int) -> Seq<int>
    decreases r - m.rows[0],
{
    if r <= m.rows[0] {
        labels
    } else {
        join_row(
            join_block(labels, columns, m, r - 1),
            columns,
            merge_base(columns, m),
            r - 1,
            m.columns[0] as int,
            m.columns[1] + 1,
        )
    }
}

/// The compartment labels of the grid after the merges, in order.
pub open spec fn merged(columns: int, rows: int, merges: Seq<DividerMerge>) -> Seq<int>
    decreases merges.len(),
{
    if merges.len() == 0 {
        singletons(columns * rows)
    } else {
        join_block(merged(columns, rows, merges.drop_last()), columns, merges.last(), merges.last().rows[1] + 1)
    }
}

/// Whether two cells of the grid lie in one compartment.
pub open spec fn same_compartment(
    columns: int,
    rows: int,
    merges: Seq<DividerMerge>,
    c1: int,
    r1: int,
    c2: int,
    r2: int,
) -> bool {
    merged(columns, rows, merges)[cell(columns, c1, r1)] == merged(columns, rows, merges)[cell(
        columns,
        c2,
        r2,
    )]
}

pub proof fn lemma_cell_in_grid(columns: int, rows: int, column: int, row: int)
    requires
        0 <= column < columns,
        0 <= row < rows,
    ensures
        0 <= cell(columns, column, row) < columns * rows,
        cell(columns, column, row) + 1 <= columns * rows,
{
    assert(0 <= row * columns) by (nonlinear_arith)
        requires
            0 <= row,
            0 <= columns,
    ;
    assert(row * columns + column < columns * rows) by (nonlinear_arith)
        requires
            0 <= column < columns,
            0 <= row < rows,
    ;
}

/// Labels that are valid cell indices and name cells labeled by themselves.
pub open spec fn labels_wf(labels: Seq<int>) -> bool {
    forall|i: int|
        0 <= i < labels.len() ==> 0 <= #[trigger] labels[i] < labels.len() && labels[labels[i]]
            == labels[i]
}

proof fn lemma_relabel_wf(labels: Seq<int>, a: int, b: int)
    requires
        labels_wf(labels),
        0 <= a < labels.len(),
        0 <= b < labels.len(),
    ensures
        labels_wf(join(labels, a, b)),
        join(labels, a, b).len() == labels.len(),
{
    let j = join(labels, a, b);
    assert forall|i: int| 0 <= i < j.len() implies 0 <= #[trigger] j[i] < j.len() && j[j[i]] == j[i] by {
        let l = labels[i];
        if l == labels[a] {
            assert(labels[labels[b]] == labels[b]);
        } else {
            assert(labels[l] == l);
        }
    }
}

proof fn lemma_join_row_keeps_equal(labels: Seq<int>, columns: int, base: int, row: int, c0: int, c: int, x: int, y: int)
    requires
        0 <= x < labels.len(),
        0 <= y < labels.len(),
        labels[x] == labels[y],
    ensures
        join_row(labels, columns, base, row, c0, c)[x] == join_row(labels, columns, base, row, c0, c)[y],
        join_row(labels, columns, base, row, c0, c).len() == labels.len(),
    decreases c - c0,
{
    if c > c0 {
        lemma_join_row_keeps_equal(labels, columns, base, row, c0, c - 1, x, y);
    }
}

proof fn lemma_join_block_keeps_equal(labels: Seq<int>, columns: int, m: DividerMerge, r: int, x: int, y: int)
    requires
        0 <= x < labels.len(),
        0 <= y < labels.len(),
        labels[x] == labels[y],
    ensures
        join_block(labels, columns, m, r)[x] == join_block(labels, columns, m, r)[y],
        join_block(labels, columns, m, r).len() == labels.len(),
    decreases r - m.rows[0],
{
    if r > m.rows[0] {
        lemma_join_block_keeps_equal(labels, columns, m, r - 1, x, y);
        lemma_join_row_keeps_equal(
            join_block(labels, columns, m, r - 1),
            columns,
            merge_base(columns, m),
            r - 1,
            m.columns[0] as int,
            m.columns[1] + 1,
            x,
            y,
        );
    }
}

proof fn lemma_merged_len(columns: int, rows: int, merges: Seq<DividerMerge>)
    requires
        columns >= 0,
        rows >= 0,
    ensures
        merged(columns, rows, merges).len() == columns * rows,
    decreases merges.len(),
{
    if merges.len() > 0 {
        lemma_merged_len(columns, rows, merges.drop_last());
        let m = merges.last();
        let labels = merged(columns, rows, merges.drop_last());
        if labels.len() > 0 {
            lemma_join_block_keeps_equal(labels, columns, m, m.rows[1] + 1, 0, 0);
        } else {
            lemma_join_block_len(labels, columns, m, m.rows[1] + 1);
        }
    } else {
        assert(columns * rows >= 0) by (nonlinear_arith)
            requires
                columns >= 0,
                rows >= 0,
        ;
    }
}

proof fn lemma_join_block_len(labels: Seq<int>, columns: int, m: DividerMerge, r: int)
    ensures
        join_block(labels, columns, m, r).len() == labels.len(),
    decreases r - m.rows[0],
{
    if r > m.rows[0] {
        lemma_join_block_len(labels, columns, m, r - 1);
        lemma_join_row_len(join_block(labels, columns, m, r - 1), columns, merge_base(columns, m), r - 1, m.columns[0] as int, m.columns[1] + 1);
    }
}

proof fn lemma_join_row_len(labels: Seq<int>, columns: int, base: int, row: int, c0: int, c: int)
    ensures
        join_row(labels, columns, base, row, c0, c).len() == labels.len(),
    decreases c - c0,
{
    if c > c0 {
        lemma_join_row_len(labels, columns, base, row, c0, c - 1);
    }
}

/// After joining cells `(c0..c, row)` into `base`, those cells and every cell
/// that already shared `base`'s compartment share it.
proof fn lemma_join_row_gathers(labels: Seq<int>, columns: int, base: int, row: int, c0: int, c: int, x: int)
    requires
        0 <= base < labels.len(),
        0 <= x < labels.len(),
        forall|k: int| c0 <= k < c ==> 0 <= #[trigger] cell(columns, k, row) < labels.len(),
        labels[x] == labels[base] || exists|k: int| c0 <= k < c && x == cell(columns, k, row),
    ensures
        join_row(labels, columns, base, row, c0, c)[x] == join_row(labels, columns, base, row, c0, c)[base],
    decreases c - c0,
{
    lemma_join_row_len(labels, columns, base, row, c0, c);
    if c > c0 {
        let prev = join_row(labels, columns, base, row, c0, c - 1);
        lemma_join_row_len(labels, columns, base, row, c0, c - 1);
        let last = cell(columns, c - 1, row);
        if x != last {
            assert(labels[x] == labels[base] || exists|k: int| c0 <= k < c - 1 && x == cell(columns, k, row)) by {
                if labels[x] != labels[base] {
                    let k = choose|k: int| c0 <= k < c && x == cell(columns, k, row);
                    assert(k != c - 1);
                }
            }
            lemma_join_row_gathers(labels, columns, base, row, c0, c - 1, x);
        }
    }
}

proof fn lemma_join_block_gathers(labels: Seq<int>, columns: int, rows: int, m: DividerMerge, r: int, c: int, rr: int)
    requires
        labels.len() == columns * rows,
        merge_columns_ok(m, columns),
        merge_rows_ok(m, rows),
        m.rows[0] <= r <= m.rows[1] + 1,
        m.columns[0] <= c <= m.columns[1],
        m.rows[0] <= rr < r,
    ensures
        join_block(labels, columns, m, r)[cell(columns, c, rr)] == join_block(labels, columns, m, r)[merge_base(columns, m)],
        join_block(labels, columns, m, r).len() == labels.len(),
    decreases r - m.rows[0],
{
    lemma_join_block_len(labels, columns, m, r);
    let base = merge_base(columns, m);
    lemma_cell_in_grid(columns, rows, m.columns[0] as int, m.rows[0] as int);
    lemma_cell_in_grid(columns, rows, c, rr);
    let prev = join_block(labels, columns, m, r - 1);
    lemma_join_block_len(labels, columns, m, r - 1);
    if rr < r - 1 {
        lemma_join_block_gathers(labels, columns, rows, m, r - 1, c, rr);
        lemma_join_row_keeps_equal(prev, columns, base, r - 1, m.columns[0] as int, m.columns[1] + 1, cell(columns, c, rr), base);
    } else {
        assert forall|k: int| m.columns[0] <= k < m.columns[1] + 1 implies 0 <= #[trigger] cell(columns, k, r - 1) < prev.len() by {
            lemma_cell_in_grid(columns, rows, k, r - 1);
        }
        lemma_join_row_gathers(prev, columns, base, r - 1, m.columns[0] as int, m.columns[1] + 1, cell(columns, c, rr));
    }
}

/// Every cell of a merged rectangle lies in the compartment of the
/// rectangle's first cell, whatever merges come before or after it.
pub proof fn lemma_merged_cells_share_compartment(
    columns: int,
    rows: int,
    merges: Seq<DividerMerge>,
    k: int,
    column: int,
    row: int,
)
    requires
        columns >= 0,
        rows >= 0,
        merges_fit(merges, columns, rows),
        0 <= k < merges.len(),
        merges[k].columns[0] <= column <= merges[k].columns[1],
        merges[k].rows[0] <= row <= merges[k].rows[1],
    ensures
        same_compartment(columns, rows, merges, column, row, merges[k].columns[0] as int, merges[k].rows[0] as int),
    decreases merges.len(),
{
    let m = merges[k];
    let prev = merged(columns, rows, merges.drop_last());
    lemma_merged_len(columns, rows, merges.drop_last());
    assert(merge_columns_ok(merges.last(), columns) && merge_rows_ok(merges.last(), rows));
    if k == merges.len() - 1 {
        lemma_join_block_gathers(prev, columns, rows, m, m.rows[1] + 1, column, row);
    } else {
        assert(merges_fit(merges.drop_last(), columns, rows)) by {
            assert forall|i: int| 0 <= i < merges.drop_last().len() implies merge_columns_ok(#[trigger] merges.drop_last()[i], columns) && merge_rows_ok(merges.drop_last()[i], rows) by {
                assert(merges.drop_last()[i] == merges[i]);
            }
        }
        assert(merges.drop_last()[k] == m);
        lemma_merged_cells_share_compartment(columns, rows, merges.drop_last(), k, column, row);
        lemma_cell_in_grid(columns, rows, column, row);
        lemma_cell_in_grid(columns, rows, m.columns[0] as int, m.rows[0] as int);
        lemma_join_block_keeps_equal(prev, columns, merges.last(), merges.last().rows[1] + 1, cell(columns, column, row), merge_base(columns, m));
    }
}

/// The compartments of a divider grid, kept as a union-find forest whose
/// roots are the compartments' labels.
pub struct Components {
    columns: usize,
    parent: Vec<usize>,
    labels: Ghost<Seq<int>>,
    depth: Ghost<Seq<nat>>,
}

impl Components {
    /// The compartment label of each cell.
    pub closed spec fn labels(&self) -> Seq<int> {
        self.labels@
    }

    pub closed spec fn columns(&self) -> int {
        self.columns as int
    }

    /// Whether a cell is the root of its compartment's tree.
    pub closed spec fn is_root(&self, i: int) -> bool {
        self.parent@[i] == i
    }

    /// Each cell reaches its label by parent steps, each of which lowers the
    /// depth by one; roots are their own parents at depth zero.
    pub closed spec fn wf(&self) -> bool {
        let n = self.parent@.len();
        &&& n <= usize::MAX
        &&& self.labels@.len() == n
        &&& self.depth@.len() == n
        &&& labels_wf(self.labels@)
        &&& forall|i: int|
            0 <= i < n ==> (#[trigger] self.parent@[i] as int) < n && (self.parent@[i] == i
                ==> self.depth@[i] == 0 && self.labels@[i] == i) && (self.parent@[i] != i
                ==> self.depth@[i] == self.depth@[self.parent@[i] as int] + 1 && self.labels@[i]
                == self.labels@[self.parent@[i] as int])
    }

    /// Every cell in its own compartment.
    fn singletons(columns: usize, n: usize) -> (r: Self)
        ensures
            r.wf(),
            r.labels() == singletons(n as int),
            r.columns() == columns,
    {
        let mut parent: Vec<usize> = Vec::new();
        let mut i: usize = 0;
        while i < n
            invariant
                i <= n,
                parent@.len() == i,
                forall|k: int| 0 <= k < i ==> #[trigger] parent@[k] == k,
            decreases n - i,
        {
            parent.push(i);
            i = i + 1;
        }
        let r = Components {
            columns,
            parent,
            labels: Ghost(singletons(n as int)),
            depth: Ghost(Seq::new(n as nat, |i: int| 0nat)),
        };
        r
    }

    /// The row-major index of a cell.
    pub fn index(&self, column: usize, row: usize) -> (r: usize)
        requires
            row * self.columns() + column <= usize::MAX,
        ensures
            r == cell(self.columns(), column as int, row as int),
    {
        row * self.columns + column
    }

    /// The label of a cell's compartment.
    pub fn root(&self, index: usize) -> (r: usize)
        requires
            self.wf(),
            index < self.labels().len(),
        ensures
            r == self.labels()[index as int],
            self.is_root(r as int),
    {
        let mut j = index;
        while self.parent[j] != j
            invariant
                self.wf(),
                j < self.labels().len(),
                self.labels()[j as int] == self.labels()[index as int],
            decreases self.depth@[j as int],
        {
            j = self.parent[j];
        }
        j
    }

    /// Joins the compartment of cell `left` into that of cell `right`.
    pub fn union(&mut self, left: usize, right: usize)
        requires
            old(self).wf(),
            left < old(self).labels().len(),
            right < old(self).labels().len(),
        ensures
            final(self).wf(),
            final(self).labels() == join(old(self).labels(), left as int, right as int),
            final(self).columns() == old(self).columns(),
    {
        let a = self.root(left);
        let b = self.root(right);
        let ghost labels = self.labels@;
        proof {
            lemma_relabel_wf(labels, left as int, right as int);
        }
        if a != b {
            let ghost depth = self.depth@;
            let ghost parent = self.parent@;
            let ghost n = parent.len();
            self.parent.set(a, b);
            self.labels = Ghost(join(labels, left as int, right as int));
            self.depth = Ghost(
                Seq::new(n, |i: int| if labels[i] == a as int { depth[i] + 1 } else { depth[i] }),
            );
            assert(labels[a as int] == a);
            assert(labels[b as int] == b);
            assert forall|i: int| 0 <= i < n implies (#[trigger] self.parent@[i] as int) < n && (
            self.parent@[i] == i ==> self.depth@[i] == 0 && self.labels@[i] == i) && (
            self.parent@[i] != i ==> self.depth@[i] == self.depth@[self.parent@[i] as int] + 1
                && self.labels@[i] == self.labels@[self.parent@[i] as int]) by {
                if i != a as int {
                    assert(self.parent@[i] == parent[i]);
                    assert((parent[i] as int) < n);
                }
            }
        } else {
            assert(join(labels, left as int, right as int) =~= labels);
        }
    }

    /// The compartments of a `columns` by `rows` grid after the merges.
    pub fn new(columns: usize, rows: usize, merges: &Vec<DividerMerge>) -> (r: Self)
        requires
            merges_fit(merges@, columns as int, rows as int),
            columns * rows <= usize::MAX,
        ensures
            r.wf(),
            r.columns() == columns,
            r.labels() == merged(columns as int, rows as int, merges@),
            r.labels().len() == columns * rows,
    {
        let n = columns * rows;
        let mut result = Self::singletons(columns, n);
        let mut mi: usize = 0;
        assert(merges@.take(0) =~= Seq::<DividerMerge>::empty());
        while mi < merges.len()
            invariant
                mi <= merges.len(),
                merges_fit(merges@, columns as int, rows as int),
                n == columns * rows,
                result.wf(),
                result.columns() == columns,
                result.labels().len() == n,
                result.labels() == merged(columns as int, rows as int, merges@.take(mi as int)),
            decreases merges.len() - mi,
        {
            let m = merges[mi];
            assert(merge_columns_ok(merges@[mi as int], columns as int));
            assert(merge_rows_ok(merges@[mi as int], rows as int));
            let ghost start = result.labels();
            proof {
                lemma_cell_in_grid(columns as int, rows as int, m.columns[0] as int, m.rows[0] as int);
            }
            let base = result.index(m.columns[0], m.rows[0]);
            let mut row = m.rows[0];
            while row <= m.rows[1]
                invariant
                    m.rows[0] <= row <= m.rows[1] + 1,
                    merge_columns_ok(m, columns as int),
                    merge_rows_ok(m, rows as int),
                    n == columns * rows,
                    base == merge_base(columns as int, m),
                    base < n,
                    result.wf(),
                    result.columns() == columns,
                    result.labels().len() == n,
                    result.labels() == join_block(start, columns as int, m, row as int),
                decreases m.rows[1] + 1 - row,
            {
                let mut column = m.columns[0];
                while column <= m.columns[1]
                    invariant
                        m.columns[0] <= column <= m.columns[1] + 1,
                        m.rows[0] <= row <= m.rows[1],
                        merge_columns_ok(m, columns as int),
                        merge_rows_ok(m, rows as int),
                        n == columns * rows,
                        base == merge_base(columns as int, m),
                        base < n,
                        result.wf(),
                        result.columns() == columns,
                        result.labels().len() == n,
                        result.labels() == join_row(
                            join_block(start, columns as int, m, row as int),
                            columns as int,
                            base as int,
                            row as int,
                            m.columns[0] as int,
                            column as int,
                        ),
                    decreases m.columns[1] + 1 - column,
                {
                    proof {
                        lemma_cell_in_grid(columns as int, rows as int, column as int, row as int);
                    }
                    let c = result.index(column, row);
                    result.union(c, base);
                    column = column + 1;
                }
                row = row + 1;
            }
            assert(merges@.take(mi + 1).drop_last() =~= merges@.take(mi as int));
            mi = mi + 1;
        }
        assert(merges@.take(merges.len() as int) =~= merges@);
        result
    }

    /// Whether two cells lie in one compartment.
    pub fn same(&self, c1: usize, r1: usize, c2: usize, r2: usize) -> (r: bool)
        requires
            self.wf(),
            r1 * self.columns() + c1 < self.labels().len(),
            r2 * self.columns() + c2 < self.labels().len(),
        ensures
            r == (self.labels()[cell(self.columns(), c1 as int, r1 as int)] == self.labels()[cell(
                self.columns(),
                c2 as int,
                r2 as int,
            )]),
    {
        self.root(self.index(c1, r1)) == self.root(self.index(c2, r2))
    }
}

/// A face of a divider wall: the side of the compartment it faces, and the
/// inclusive column and row ranges of the cells along it.
#[derive(Debug, Clone, Copy, PartialEq, Eq)]
pub struct Face {
    pub side: Side,
    pub columns: [usize; 2],
    pub rows: [usize; 2],
}

/// A face as (side, first column, last column, first row, last row).
pub type FaceView = (Side, int, int, int, int);

impl Face {
    pub open spec fn view(&self) -> FaceView {
        (self.side, self.columns[0] as int, self.columns[1] as int, self.rows[0] as int, self.rows[1] as int)
    }
}

pub open spec fn faces_view(faces: Seq<Face>) -> Seq<FaceView> {
    faces.map_values(|f: Face| f.view())
}

/// The cell next to `(column, row)` on a side.
pub open spec fn neighbour(column: int, row: int, side: Side) -> (int, int) {
    match side {
        Side::North => (column, row - 1),
        Side::South => (column, row + 1),
        Side::East => (column + 1, row),
        Side::West => (column - 1, row),
    }
}

/// Whether the cell's neighbour on a side lies in its compartment; a
/// neighbour outside the grid never does.
pub open spec fn same_side(labels: Seq<int>, columns: int, rows: int, column: int, row: int, side: Side) -> bool {
    let (c2, r2) = neighbour(column, row, side);
    0 <= c2 < columns && 0 <= r2 < rows && labels[cell(columns, column, row)] == labels[cell(
        columns,
        c2,
        r2,
    )]
}

/// The last column of a run of walled cells on `side` of `row` that starts
/// at `c`: the run goes on while the next cell is walled on that side and in
/// the same compartment as the cell before it.
pub open spec fn row_run_end(labels: Seq<int>, columns: int, rows: int, side: Side, row: int, c: int) -> int
    decreases columns - c,
{
    if c + 1 < columns && !same_side(labels, columns, rows, c + 1, row, side) && same_side(
        labels,
        columns,
        rows,
        c + 1,
        row,
        Side::West,
    ) {
        row_run_end(labels, columns, rows, side, row, c + 1)
    } else {
        c
    }
}

pub proof fn lemma_row_run_end(labels: Seq<int>, columns: int, rows: int, side: Side, row: int, c: int)
    requires
        0 <= c < columns,
    ensures
        c <= row_run_end(labels, columns, rows, side, row, c) < columns,
    decreases columns - c,
{
    if c + 1 < columns && !same_side(labels, columns, rows, c + 1, row, side) && same_side(
        labels,
        columns,
        rows,
        c + 1,
        row,
        Side::West,
    ) {
        lemma_row_run_end(labels, columns, rows, side, row, c + 1);
    }
}

/// The capped wall faces on `side` of the cells of `row`, from column `c` on:
/// maximal runs of walled cells whose ends border another compartment or the
/// grid's edge.
pub open spec fn row_faces(labels: Seq<int>, columns: int, rows: int, side: Side, row: int, c: int) -> Seq<
    FaceView,
>
    decreases columns - c,
{
    if c < 0 || c >= columns {
        seq![]
    } else if same_side(labels, columns, rows, c, row, side) {
        row_faces(labels, columns, rows, side, row, c + 1)
    } else {
        let end = row_run_end(labels, columns, rows, side, row, c);
        let capped = !same_side(labels, columns, rows, c, row, Side::West) && !same_side(
            labels,
            columns,
            rows,
            end,
            row,
            Side::East,
        );
        proof {
            lemma_row_run_end(labels, columns, rows, side, row, c);
        }
        (if capped {
            seq![(side, c, end, row, row)]
        } else {
            seq![]
        }) + row_faces(labels, columns, rows, side, row, end + 1)
    }
}

/// The last row of a run of walled cells on `side` of `column` from row `r`.
pub open spec fn column_run_end(labels: Seq<int>, columns: int, rows: int, side: Side, column: int, r: int) -> int
    decreases rows - r,
{
    if r + 1 < rows && !same_side(labels, columns, rows, column, r + 1, side) && same_side(
        labels,
        columns,
        rows,
        column,
        r + 1,
        Side::North,
    ) {
        column_run_end(labels, columns, rows, side, column, r + 1)
    } else {
        r
    }
}

pub proof fn lemma_column_run_end(labels: Seq<int>, columns: int, rows: int, side: Side, column: int, r: int)
    requires
        0 <= r < rows,
    ensures
        r <= column_run_end(labels, columns, rows, side, column, r) < rows,
    decreases rows - r,
{
    if r + 1 < rows && !same_side(labels, columns, rows, column, r + 1, side) && same_side(
        labels,
        columns,
        rows,
        column,
        r + 1,
        Side::North,
    ) {
        lemma_column_run_end(labels, columns, rows, side, column, r + 1);
    }
}

/// The capped wall faces on `side` of the cells of `column`, from row `r` on.
pub open spec fn column_faces(labels: Seq<int>, columns: int, rows: int, side: Side, column: int, r: int) -> Seq<
    FaceView,
>
    decreases rows - r,
{
    if r < 0 || r >= rows {
        seq![]
    } else if same_side(labels, columns, rows, column, r, side) {
        column_faces(labels, columns, rows, side, column, r + 1)
    } else {
        let end = column_run_end(labels, columns, rows, side, column, r);
        let capped = !same_side(labels, columns, rows, column, r, Side::North) && !same_side(
            labels,
            columns,
            rows,
            column,
            end,
            Side::South,
        );
        proof {
            lemma_column_run_end(labels, columns, rows, side, column, r);
        }
        (if capped {
            seq![(side, column, column, r, end)]
        } else {
            seq![]
        }) + column_faces(labels, columns, rows, side, column, end + 1)
    }
}

/// The south then north faces of rows `0..r`, row by row.
pub open spec fn horizontal_faces(labels: Seq<int>, columns: int, rows: int, r: int) -> Seq<FaceView>
    decreases r,
{
    if r <= 0 {
        seq![]
    } else {
        horizontal_faces(labels, columns, rows, r - 1) + row_faces(
            labels,
            columns,
            rows,
            Side::South,
            r - 1,
            0,
        ) + row_faces(labels, columns, rows, Side::North, r - 1, 0)
    }
}

/// The east then west faces of columns `0..c`, column by column.
pub open spec fn vertical_faces(labels: Seq<int>, columns: int, rows: int, c: int) -> Seq<FaceView>
    decreases c,
{
    if c <= 0 {
        seq![]
    } else {
        vertical_faces(labels, columns, rows, c - 1) + column_faces(
            labels,
            columns,
            rows,
            Side::East,
            c - 1,
            0,
        ) + column_faces(labels, columns, rows, Side::West, c - 1, 0)
    }
}

/// Every complete, capped divider wall face of a grid: horizontal faces
/// row by row, then vertical faces column by column.
pub open spec fn divider_faces(columns: int, rows: int, merges: Seq<DividerMerge>) -> Seq<FaceView> {
    let labels = merged(columns, rows, merges);
    horizontal_faces(labels, columns, rows, rows) + vertical_faces(labels, columns, rows, columns)
}

/// Whether a face is a complete, capped wall face: every cell along it is
/// walled off on its side, the cells along it form one compartment, and the
/// compartment ends at both of its ends.
pub open spec fn capped_wall_face(labels: Seq<int>, columns: int, rows: int, f: FaceView) -> bool {
    let (side, c0, c1, r0, r1) = f;
    if side == Side::North || side == Side::South {
        &&& 0 <= c0 <= c1 < columns
        &&& 0 <= r0 == r1 < rows
        &&& forall|c: int| c0 <= c <= c1 ==> !#[trigger] same_side(labels, columns, rows, c, r0, side)
        &&& forall|c: int| c0 < c <= c1 ==> #[trigger] same_side(labels, columns, rows, c, r0, Side::West)
        &&& !same_side(labels, columns, rows, c0, r0, Side::West)
        &&& !same_side(labels, columns, rows, c1, r0, Side::East)
    } else {
        &&& 0 <= c0 == c1 < columns
        &&& 0 <= r0 <= r1 < rows
        &&& forall|r: int| r0 <= r <= r1 ==> !#[trigger] same_side(labels, columns, rows, c0, r, side)
        &&& forall|r: int| r0 < r <= r1 ==> #[trigger] same_side(labels, columns, rows, c0, r, Side::North)
        &&& !same_side(labels, columns, rows, c0, r0, Side::North)
        &&& !same_side(labels, columns, rows, c0, r1, Side::South)
    }
}

pub open spec fn all_capped(labels: Seq<int>, columns: int, rows: int, faces: Seq<FaceView>) -> bool {
    forall|i: int| 0 <= i < faces.len() ==> capped_wall_face(labels, columns, rows, #[trigger] faces[i])
}

proof fn lemma_all_capped_concat(labels: Seq<int>, columns: int, rows: int, a: Seq<FaceView>, b: Seq<FaceView>)
    requires
        all_capped(labels, columns, rows, a),
        all_capped(labels, columns, rows, b),
    ensures
        all_capped(labels, columns, rows, a + b),
{
    assert forall|i: int| 0 <= i < (a + b).len() implies capped_wall_face(labels, columns, rows, #[trigger] (a + b)[i]) by {
        if i < a.len() {
            assert((a + b)[i] == a[i]);
        } else {
            assert((a + b)[i] == b[i - a.len()]);
        }
    }
}

proof fn lemma_row_run_cells(labels: Seq<int>, columns: int, rows: int, side: Side, row: int, c: int)
    requires
        0 <= c < columns,
    ensures
        forall|k: int|
            c < k <= row_run_end(labels, columns, rows, side, row, c) ==> !#[trigger] same_side(
                labels,
                columns,
                rows,
                k,
                row,
                side,
            ) && same_side(labels, columns, rows, k, row, Side::West),
    decreases columns - c,
{
    if c + 1 < columns && !same_side(labels, columns, rows, c + 1, row, side) && same_side(
        labels,
        columns,
        rows,
        c + 1,
        row,
        Side::West,
    ) {
        lemma_row_run_cells(labels, columns, rows, side, row, c + 1);
    }
}

proof fn lemma_row_faces_capped(labels: Seq<int>, columns: int, rows: int, side: Side, row: int, c: int)
    requires
        side == Side::North || side == Side::South,
        0 <= row < rows,
    ensures
        all_capped(labels, columns, rows, row_faces(labels, columns, rows, side, row, c)),
    decreases columns - c,
{
    if 0 <= c < columns {
        if same_side(labels, columns, rows, c, row, side) {
            lemma_row_faces_capped(labels, columns, rows, side, row, c + 1);
        } else {
            let end = row_run_end(labels, columns, rows, side, row, c);
            lemma_row_run_end(labels, columns, rows, side, row, c);
            lemma_row_run_cells(labels, columns, rows, side, row, c);
            lemma_row_faces_capped(labels, columns, rows, side, row, end + 1);
            let capped = !same_side(labels, columns, rows, c, row, Side::West) && !same_side(
                labels,
                columns,
                rows,
                end,
                row,
                Side::East,
            );
            let head: Seq<FaceView> = if capped {
                seq![(side, c, end, row, row)]
            } else {
                seq![]
            };
            if capped {
                assert forall|k: int| c <= k <= end implies !#[trigger] same_side(
                    labels,
                    columns,
                    rows,
                    k,
                    row,
                    side,
                ) by {
                    if k > c {
                        lemma_row_run_cells(labels, columns, rows, side, row, c);
                        let t = same_side(labels, columns, rows, k, row, side);
                        assert(!t);
                    }
                }
                assert forall|k: int| c < k <= end implies #[trigger] same_side(
                    labels,
                    columns,
                    rows,
                    k,
                    row,
                    Side::West,
                ) by {
                    lemma_row_run_cells(labels, columns, rows, side, row, c);
                    let t = same_side(labels, columns, rows, k, row, side);
                    assert(!t);
                }
                assert(capped_wall_face(labels, columns, rows, (side, c, end, row, row)));
            }
            assert(all_capped(labels, columns, rows, head));
            lemma_all_capped_concat(labels, columns, rows, head, row_faces(labels, columns, rows, side, row, end + 1));
        }
    }
}

proof fn lemma_column_run_cells(labels: Seq<int>, columns: int, rows: int, side: Side, column: int, r: int)
    requires
        0 <= r < rows,
    ensures
        forall|k: int|
            r < k <= column_run_end(labels, columns, rows, side, column, r) ==> !#[trigger] same_side(
                labels,
                columns,
                rows,
                column,
                k,
                side,
            ) && same_side(labels, columns, rows, column, k, Side::North),
    decreases rows - r,
{
    if r + 1 < rows && !same_side(labels, columns, rows, column, r + 1, side) && same_side(
        labels,
        columns,
        rows,
        column,
        r + 1,
        Side::North,
    ) {
        lemma_column_run_cells(labels, columns, rows, side, column, r + 1);
    }
}

proof fn lemma_column_faces_capped(labels: Seq<int>, columns: int, rows: int, side: Side, column: int, r: int)
    requires
        side == Side::East || side == Side::West,
        0 <= column < columns,
    ensures
        all_capped(labels, columns, rows, column_faces(labels, columns, rows, side, column, r)),
    decreases rows - r,
{
    if 0 <= r < rows {
        if same_side(labels, columns, rows, column, r, side) {
            lemma_column_faces_capped(labels, columns, rows, side, column, r + 1);
        } else {
            let end = column_run_end(labels, columns, rows, side, column, r);
            lemma_column_run_end(labels, columns, rows, side, column, r);
            lemma_column_run_cells(labels, columns, rows, side, column, r);
            lemma_column_faces_capped(labels, columns, rows, side, column, end + 1);
            let capped = !same_side(labels, columns, rows, column, r, Side::North) && !same_side(
                labels,
                columns,
                rows,
                column,
                end,
                Side::South,
            );
            let head: Seq<FaceView> = if capped {
                seq![(side, column, column, r, end)]
            } else {
                seq![]
            };
            if capped {
                assert forall|k: int| r <= k <= end implies !#[trigger] same_side(
                    labels,
                    columns,
                    rows,
                    column,
                    k,
                    side,
                ) by {
                    if k > r {
                        lemma_column_run_cells(labels, columns, rows, side, column, r);
                        let t = same_side(labels, columns, rows, column, k, side);
                        assert(!t);
                    }
                }
                assert forall|k: int| r < k <= end implies #[trigger] same_side(
                    labels,
                    columns,
                    rows,
                    column,
                    k,
                    Side::North,
                ) by {
                    lemma_column_run_cells(labels, columns, rows, side, column, r);
                    let t = same_side(labels, columns, rows, column, k, side);
                    assert(!t);
                }
                assert(capped_wall_face(labels, columns, rows, (side, column, column, r, end)));
            }
            assert(all_capped(labels, columns, rows, head));
            lemma_all_capped_concat(labels, columns, rows, head, column_faces(labels, columns, rows, side, column, end + 1));
        }
    }
}

proof fn lemma_horizontal_capped(labels: Seq<int>, columns: int, rows: int, r: int)
    requires
        r <= rows,
    ensures
        all_capped(labels, columns, rows, horizontal_faces(labels, columns, rows, r)),
    decreases r,
{
    if r > 0 {
        lemma_horizontal_capped(labels, columns, rows, r - 1);
        lemma_row_faces_capped(labels, columns, rows, Side::South, r - 1, 0);
        lemma_row_faces_capped(labels, columns, rows, Side::North, r - 1, 0);
        lemma_all_capped_concat(labels, columns, rows, horizontal_faces(labels, columns, rows, r - 1), row_faces(labels, columns, rows, Side::South, r - 1, 0));
        lemma_all_capped_concat(labels, columns, rows, horizontal_faces(labels, columns, rows, r - 1) + row_faces(labels, columns, rows, Side::South, r - 1, 0), row_faces(labels, columns, rows, Side::North, r - 1, 0));
    }
}

proof fn lemma_vertical_capped(labels: Seq<int>, columns: int, rows: int, c: int)
    requires
        c <= columns,
    ensures
        all_capped(labels, columns, rows, vertical_faces(labels, columns, rows, c)),
    decreases c,
{
    if c > 0 {
        lemma_vertical_capped(labels, columns, rows, c - 1);
        lemma_column_faces_capped(labels, columns, rows, Side::East, c - 1, 0);
        lemma_column_faces_capped(labels, columns, rows, Side::West, c - 1, 0);
        lemma_all_capped_concat(labels, columns, rows, vertical_faces(labels, columns, rows, c - 1), column_faces(labels, columns, rows, Side::East, c - 1, 0));
        lemma_all_capped_concat(labels, columns, rows, vertical_faces(labels, columns, rows, c - 1) + column_faces(labels, columns, rows, Side::East, c - 1, 0), column_faces(labels, columns, rows, Side::West, c - 1, 0));
    }
}

/// Every face that a divider grid offers for easy grabs is a complete,
/// capped divider wall face of its compartments.
pub proof fn lemma_divider_faces_are_capped_walls(columns: int, rows: int, merges: Seq<DividerMerge>)
    ensures
        all_capped(merged(columns, rows, merges), columns, rows, divider_faces(columns, rows, merges)),
{
    let labels = merged(columns, rows, merges);
    lemma_horizontal_capped(labels, columns, rows, rows);
    lemma_vertical_capped(labels, columns, rows, columns);
    lemma_all_capped_concat(labels, columns, rows, horizontal_faces(labels, columns, rows, rows), vertical_faces(labels, columns, rows, columns));
}

impl Components {
    /// Whether the neighbour of a cell on `side` lies in its compartment.
    fn same_on(&self, rows: usize, column: usize, row: usize, side: Side) -> (r: bool)
        requires
            self.wf(),
            self.labels().len() == self.columns() * rows,
            column < self.columns(),
            row < rows,
        ensures
            r == same_side(self.labels(), self.columns(), rows as int, column as int, row as int, side),
    {
        let columns = self.columns;
        proof {
            lemma_cell_in_grid(columns as int, rows as int, column as int, row as int);
        }
        match side {
            Side::North => {
                if row == 0 {
                    return false;
                }
                proof {
                    lemma_cell_in_grid(columns as int, rows as int, column as int, row - 1);
                }
                self.same(column, row, column, row - 1)
            },
            Side::South => {
                if row + 1 >= rows {
                    return false;
                }
                proof {
                    lemma_cell_in_grid(columns as int, rows as int, column as int, row + 1);
                }
                self.same(column, row, column, row + 1)
            },
            Side::East => {
                if column + 1 >= columns {
                    return false;
                }
                proof {
                    lemma_cell_in_grid(columns as int, rows as int, column + 1, row as int);
                }
                self.same(column, row, column + 1, row)
            },
            Side::West => {
                if column == 0 {
                    return false;
                }
                proof {
                    lemma_cell_in_grid(columns as int, rows as int, column - 1, row as int);
                }
                self.same(column, row, column - 1, row)
            },
        }
    }

    /// The capped wall faces on `side` of the cells of one row.
    fn row_face_list(&self, rows: usize, side: Side, row: usize) -> (r: Vec<Face>)
        requires
            self.wf(),
            self.labels().len() == self.columns() * rows,
            row < rows,
        ensures
            faces_view(r@) == row_faces(self.labels(), self.columns(), rows as int, side, row as int, 0),
    {
        let columns = self.columns;
        let ghost labels = self.labels();
        let mut out: Vec<Face> = Vec::new();
        let mut column: usize = 0;
        while column < columns
            invariant
                self.wf(),
                labels == self.labels(),
                columns == self.columns(),
                self.labels().len() == self.columns() * rows,
                row < rows,
                column <= columns,
                row_faces(labels, columns as int, rows as int, side, row as int, 0) == faces_view(out@)
                    + row_faces(labels, columns as int, rows as int, side, row as int, column as int),
            decreases columns - column,
        {
            if self.same_on(rows, column, row, side) {
                column = column + 1;
            } else {
                let start = column;
                column = column + 1;
                while column < columns && !self.same_on(rows, column, row, side) && self.same_on(
                    rows,
                    column,
                    row,
                    Side::West,
                )
                    invariant
                        self.wf(),
                        labels == self.labels(),
                        columns == self.columns(),
                        self.labels().len() == self.columns() * rows,
                        row < rows,
                        start < column <= columns,
                        row_run_end(labels, columns as int, rows as int, side, row as int, start as int)
                            == row_run_end(labels, columns as int, rows as int, side, row as int, column - 1),
                    decreases columns - column,
                {
                    column = column + 1;
                }
                let end = column - 1;
                let capped = !self.same_on(rows, start, row, Side::West) && !self.same_on(
                    rows,
                    end,
                    row,
                    Side::East,
                );
                let ghost before = out@;
                if capped {
                    out.push(Face { side, columns: [start, end], rows: [row, row] });
                    assert(faces_view(out@) =~= faces_view(before) + seq![(side, start as int, end as int, row as int, row as int)]);
                }
            }
        }
        assert(faces_view(out@) + seq![] =~= faces_view(out@));
        out
    }

    /// The capped wall faces on `side` of the cells of one column.
    fn column_face_list(&self, rows: usize, side: Side, column: usize) -> (r: Vec<Face>)
        requires
            self.wf(),
            self.labels().len() == self.columns() * rows,
            column < self.columns(),
        ensures
            faces_view(r@) == column_faces(self.labels(), self.columns(), rows as int, side, column as int, 0),
    {
        let columns = self.columns;
        let ghost labels = self.labels();
        let mut out: Vec<Face> = Vec::new();
        let mut row: usize = 0;
        while row < rows
            invariant
                self.wf(),
                labels == self.labels(),
                columns == self.columns(),
                self.labels().len() == self.columns() * rows,
                column < columns,
                row <= rows,
                column_faces(labels, columns as int, rows as int, side, column as int, 0) == faces_view(out@)
                    + column_faces(labels, columns as int, rows as int, side, column as int, row as int),
            decreases rows - row,
        {
            if self.same_on(rows, column, row, side) {
                row = row + 1;
            } else {
                let start = row;
                row = row + 1;
                while row < rows && !self.same_on(rows, column, row, side) && self.same_on(
                    rows,
                    column,
                    row,
                    Side::North,
                )
                    invariant
                        self.wf(),
                        labels == self.labels(),
                        columns == self.columns(),
                        self.labels().len() == self.columns() * rows,
                        column < columns,
                        start < row <= rows,
                        column_run_end(labels, columns as int, rows as int, side, column as int, start as int)
                            == column_run_end(labels, columns as int, rows as int, side, column as int, row - 1),
                    decreases rows - row,
                {
                    row = row + 1;
                }
                let end = row - 1;
                let capped = !self.same_on(rows, column, start, Side::North) && !self.same_on(
                    rows,
                    column,
                    end,
                    Side::South,
                );
                let ghost before = out@;
                if capped {
                    out.push(Face { side, columns: [column, column], rows: [start, end] });
                    assert(faces_view(out@) =~= faces_view(before) + seq![(side, column as int, column as int, start as int, end as int)]);
                }
            }
        }
        assert(faces_view(out@) + seq![] =~= faces_view(out@));
        out
    }
}

fn append_faces(out: &mut Vec<Face>, more: Vec<Face>)
    ensures
        faces_view(final(out)@) == faces_view(old(out)@) + faces_view(more@),
{
    let mut more = more;
    let ghost added = more@;
    out.append(&mut more);
    assert(faces_view(final(out)@) =~= faces_view(old(out)@) + faces_view(added));
}

/// Every complete, capped divider wall face of a divider grid, after checking
/// its merges: horizontal faces row by row (south before north), then
/// vertical faces column by column (east before west).
pub fn all_faces(divider: &DividerConfig) -> (r: Result<Vec<Face>, MergeError>)
    requires
        divider.columns@.len() * divider.rows@.len() <= usize::MAX,
    ensures
        match merge_fault(divider.merges@, divider.columns@.len() as int, divider.rows@.len() as int, 0) {
            Some(e) => r == Err::<Vec<Face>, MergeError>(e),
            None => r matches Ok(faces) && faces_view(faces@) == divider_faces(
                divider.columns@.len() as int,
                divider.rows@.len() as int,
                divider.merges@,
            ),
        },
{
    let columns = divider.columns.len();
    let rows = divider.rows.len();
    validate_merges(divider, columns, rows)?;
    let components = Components::new(columns, rows, &divider.merges);
    let ghost labels = components.labels();
    let mut faces: Vec<Face> = Vec::new();
    let mut row: usize = 0;
    while row < rows
        invariant
            row <= rows,
            components.wf(),
            labels == components.labels(),
            components.columns() == columns,
            labels.len() == columns * rows,
            faces_view(faces@) == horizontal_faces(labels, columns as int, rows as int, row as int),
        decreases rows - row,
    {
        let south = components.row_face_list(rows, Side::South, row);
        append_faces(&mut faces, south);
        let north = components.row_face_list(rows, Side::North, row);
        append_faces(&mut faces, north);
        row = row + 1;
    }
    let mut column: usize = 0;
    while column < columns
        invariant
            column <= columns,
            components.wf(),
            labels == components.labels(),
            components.columns() == columns,
            labels.len() == columns * rows,
            faces_view(faces@) == horizontal_faces(labels, columns as int, rows as int, rows as int)
                + vertical_faces(labels, columns as int, rows as int, column as int),
        decreases columns - column,
    {
        let east = components.column_face_list(rows, Side::East, column);
        append_faces(&mut faces, east);
        let west = components.column_face_list(rows, Side::West, column);
        append_faces(&mut faces, west);
        column = column + 1;
    }
    Ok(faces)
}

/// The greatest common divisor by Euclid's algorithm (zero for two zeros).
pub open spec fn gcd_spec(a: nat, b: nat) -> nat
    decreases b,
{
    if b == 0 {
        a
    } else {
        gcd_spec(b, a % b)
    }
}

/// The product of two integers.
pub open spec fn product(a: int, b: int) -> int {
    a * b
}

/// `d` divides `x`.
pub open spec fn divides(d: int, x: int) -> bool {
    exists|k: int| x == #[trigger] product(d, k)
}

/// The greatest common divisor divides both of its arguments.
pub proof fn lemma_gcd_divides(a: nat, b: nat)
    ensures
        divides(gcd_spec(a, b) as int, a as int),
        divides(gcd_spec(a, b) as int, b as int),
    decreases b,
{
    if b == 0 {
        assert(a as int == product(a as int, 1));
        assert(0 == product(a as int, 0));
    } else {
        lemma_gcd_divides(b, a % b);
        let g = gcd_spec(a, b) as int;
        let k1 = choose|k: int| b as int == product(g, k);
        let k2 = choose|k: int| (a % b) as int == product(g, k);
        vstd::arithmetic::div_mod::lemma_fundamental_div_mod(a as int, b as int);
        let q = (a / b) as int;
        assert(a as int == g * (k1 * q + k2)) by (nonlinear_arith)
            requires
                a as int == b * q + (a % b),
                b as int == g * k1,
                (a % b) as int == g * k2,
        ;
        assert(a as int == product(g, k1 * q + k2));
    }
}

/// `gcd` as the label interface uses it: never below one.
pub open spec fn gcd_at_least_one(a: nat, b: nat) -> nat {
    if gcd_spec(a, b) >= 1 {
        gcd_spec(a, b)
    } else {
        1
    }
}

/// The greatest common divisor of two widths, or one when both are zero.
pub fn gcd(left: u32, right: u32) -> (r: u32)
    ensures
        r == gcd_at_least_one(left as nat, right as nat),
{
    let mut l = left;
    let mut r = right;
    while r != 0
        invariant
            gcd_spec(l as nat, r as nat) == gcd_spec(left as nat, right as nat),
        decreases r,
    {
        let rem = l % r;
        l = r;
        r = rem;
    }
    if l >= 1 {
        l
    } else {
        1
    }
}

/// The widths between consecutive boundaries, and from the last boundary to
/// the full width of one billion parts.
pub open spec fn segment_ticks(boundaries: Seq<u32>) -> Seq<int> {
    Seq::new(
        boundaries.len() + 1,
        |i: int|
            (if i < boundaries.len() {
                boundaries[i] as int
            } else {
                1_000_000_000int
            }) - (if i == 0 {
                0int
            } else {
                boundaries[i - 1] as int
            }),
    )
}

/// `gcd` folded over the widths from the left; the first width alone for one.
pub open spec fn fold_gcd(ticks: Seq<int>) -> int
    decreases ticks.len(),
{
    if ticks.len() <= 1 {
        if ticks.len() == 1 {
            ticks[0]
        } else {
            1
        }
    } else {
        gcd_at_least_one(fold_gcd(ticks.drop_last()) as nat, ticks.last() as nat) as int
    }
}

/// Strictly increasing boundaries strictly inside the full width.
pub open spec fn boundaries_ok(boundaries: Seq<u32>) -> bool {
    &&& forall|i: int| 0 <= i < boundaries.len() ==> 1 <= #[trigger] boundaries[i] < 1_000_000_000
    &&& forall|i: int, j: int| 0 <= i < j < boundaries.len() ==> boundaries[i] < boundaries[j]
}

/// The `fr` weight of each label column: its width over the common divisor.
pub open spec fn column_weights(boundaries: Seq<u32>) -> Seq<int> {
    let ticks = segment_ticks(boundaries);
    ticks.map_values(|t: int| t / fold_gcd(ticks))
}

pub open spec fn fr_column(weight: int) -> Seq<char> {
    decimal_digits(weight as nat) + "fr"@
}

proof fn lemma_fold_gcd_divides(ticks: Seq<int>)
    requires
        ticks.len() >= 1,
        forall|i: int| 0 <= i < ticks.len() ==> #[trigger] ticks[i] >= 1,
    ensures
        fold_gcd(ticks) >= 1,
        forall|i: int| 0 <= i < ticks.len() ==> divides(fold_gcd(ticks), #[trigger] ticks[i]),
    decreases ticks.len(),
{
    if ticks.len() == 1 {
        assert(ticks[0] == product(ticks[0], 1));
    } else {
        let prev = ticks.drop_last();
        lemma_fold_gcd_divides(prev);
        let a = fold_gcd(prev) as nat;
        let b = ticks.last() as nat;
        lemma_gcd_divides(a, b);
        let g = fold_gcd(ticks);
        assert(gcd_spec(a, b) >= 1) by {
            if gcd_spec(a, b) == 0 {
                let k = choose|k: int| a as int == product(gcd_spec(a, b) as int, k);
                assert(a as int == 0 * k);
            }
        }
        assert forall|i: int| 0 <= i < ticks.len() implies divides(g, #[trigger] ticks[i]) by {
            if i < ticks.len() - 1 {
                assert(prev[i] == ticks[i]);
                let k1 = choose|k: int| a as int == product(g, k);
                let k2 = choose|k: int| ticks[i] == product(a as int, k);
                assert(ticks[i] == g * (k1 * k2)) by (nonlinear_arith)
                    requires
                        a as int == g * k1,
                        ticks[i] == (a as int) * k2,
                ;
                assert(ticks[i] == product(g, k1 * k2));
            }
        }
    }
}

/// The label columns are exact: each weight times the common divisor gives
/// back the column's width, and the widths fill the full width.
pub proof fn lemma_column_weights_exact(boundaries: Seq<u32>)
    requires
        boundaries_ok(boundaries),
    ensures
        fold_gcd(segment_ticks(boundaries)) >= 1,
        forall|i: int|
            0 <= i <= boundaries.len() ==> #[trigger] column_weights(boundaries)[i] * fold_gcd(
                segment_ticks(boundaries),
            ) == segment_ticks(boundaries)[i] && column_weights(boundaries)[i] >= 1,
{
    let ticks = segment_ticks(boundaries);
    assert forall|i: int| 0 <= i < ticks.len() implies #[trigger] ticks[i] >= 1 by {
        if i > 0 && i < boundaries.len() {
            assert(boundaries[i - 1] < boundaries[i]);
        }
    }
    lemma_fold_gcd_divides(ticks);
    let d = fold_gcd(ticks);
    assert forall|i: int| 0 <= i <= boundaries.len() implies #[trigger] column_weights(boundaries)[i] * d
        == ticks[i] && column_weights(boundaries)[i] >= 1 by {
        let k = choose|k: int| ticks[i] == product(d, k);
        vstd::arithmetic::div_mod::lemma_fundamental_div_mod(ticks[i], d);
        assert(ticks[i] / d == k) by (nonlinear_arith)
            requires
                ticks[i] == d * k,
                d >= 1,
        {
            vstd::arithmetic::div_mod::lemma_div_multiples_vanish(k, d);
        }
        assert(k >= 1) by (nonlinear_arith)
            requires
                ticks[i] == d * k,
                d >= 1,
                ticks[i] >= 1,
        ;
        assert(k * d == d * k) by (nonlinear_arith);
    }
}

/// Which label columns end in a divider wall: column `i` does when a next
/// column exists and the first-row cells `i` and `i + 1` lie in different
/// compartments.
pub fn row_zero_walls(columns: usize, rows: usize, merges: &Vec<DividerMerge>) -> (r: Vec<bool>)
    requires
        rows >= 1,
        merges_fit(merges@, columns as int, rows as int),
        columns * rows <= usize::MAX,
    ensures
        r@.len() == columns,
        forall|i: int|
            0 <= i < columns ==> #[trigger] r@[i] == (i + 1 < columns && !same_compartment(
                columns as int,
                rows as int,
                merges@,
                i,
                0,
                i + 1,
                0,
            )),
{
    let components = Components::new(columns, rows, merges);
    let mut walls: Vec<bool> = Vec::new();
    let mut i: usize = 0;
    while i < columns
        invariant
            i <= columns,
            rows >= 1,
            components.wf(),
            components.columns() == columns,
            components.labels() == merged(columns as int, rows as int, merges@),
            components.labels().len() == columns * rows,
            walls@.len() == i,
            forall|k: int|
                0 <= k < i ==> #[trigger] walls@[k] == (k + 1 < columns && !same_compartment(
                    columns as int,
                    rows as int,
                    merges@,
                    k,
                    0,
                    k + 1,
                    0,
                )),
        decreases columns - i,
    {
        let wall = if i + 1 < columns {
            proof {
                lemma_cell_in_grid(columns as int, rows as int, i as int, 0);
                lemma_cell_in_grid(columns as int, rows as int, i + 1, 0);
            }
            !components.same(i, 0, i + 1, 0)
        } else {
            false
        };
        walls.push(wall);
        i = i + 1;
    }
    walls
}

/// Why the boundaries of a label interface were rejected.
#[derive(Debug, Clone, Copy, PartialEq, Eq, Structural)]
pub enum InterfaceError {
    /// The bin has no swappable label.
    NoSwappableLabel,
    /// A rounded boundary lies outside the bin width.
    OutsideWidth,
    /// Two rounded boundaries coincide or cross.
    TooClose,
}

/// The first problem among rounded boundaries, from index `i` on.
pub open spec fn boundary_fault(rounded: Seq<i64>, i: int) -> Option<InterfaceError>
    decreases rounded.len() - i,
{
    if i < 0 || i >= rounded.len() {
        None
    } else if !(1 <= rounded[i] < 1_000_000_000) {
        Some(InterfaceError::OutsideWidth)
    } else if i > 0 && rounded[i - 1] >= rounded[i] {
        Some(InterfaceError::TooClose)
    } else {
        boundary_fault(rounded, i + 1)
    }
}

proof fn lemma_boundary_fault_none(rounded: Seq<i64>, i: int)
    requires
        0 <= i <= rounded.len(),
        boundary_fault(rounded, i) is None,
    ensures
        forall|k: int| i <= k < rounded.len() ==> 1 <= #[trigger] rounded[k] < 1_000_000_000,
        forall|k: int| i < k < rounded.len() ==> rounded[k - 1] < #[trigger] rounded[k],
    decreases rounded.len() - i,
{
    if i < rounded.len() {
        lemma_boundary_fault_none(rounded, i + 1);
    }
}

proof fn lemma_chain_increases(s: Seq<i64>, a: int, b: int)
    requires
        0 <= a < b < s.len(),
        forall|k: int| 0 < k < s.len() ==> s[k - 1] < #[trigger] s[k],
    ensures
        s[a] < s[b],
    decreases b - a,
{
    if b > a + 1 {
        lemma_chain_increases(s, a, b - 1);
    }
}

/// Checks rounded boundaries (in billionths of the bin width) in order: each
/// must lie strictly inside the width and beyond the one before it.
pub fn label_boundaries(rounded: &Vec<i64>) -> (r: Result<Vec<u32>, InterfaceError>)
    ensures
        match boundary_fault(rounded@, 0) {
            Some(e) => r == Err::<Vec<u32>, InterfaceError>(e),
            None => r matches Ok(b) && b@.len() == rounded@.len() && boundaries_ok(b@) && forall|i: int|
                0 <= i < b@.len() ==> #[trigger] b@[i] == rounded@[i],
        },
{
    let mut boundaries: Vec<u32> = Vec::new();
    let mut i: usize = 0;
    while i < rounded.len()
        invariant
            i <= rounded.len(),
            boundary_fault(rounded@, 0) == boundary_fault(rounded@, i as int),
            boundaries@.len() == i,
            forall|k: int| 0 <= k < i ==> #[trigger] boundaries@[k] == rounded@[k],
        decreases rounded.len() - i,
    {
        let value = rounded[i];
        if !(1 <= value && value < 1_000_000_000) {
            return Err(InterfaceError::OutsideWidth);
        }
        if i > 0 && rounded[i - 1] >= value {
            return Err(InterfaceError::TooClose);
        }
        boundaries.push(value as u32);
        i = i + 1;
    }
    proof {
        lemma_boundary_fault_none(rounded@, 0);
        assert forall|a: int, b: int| 0 <= a < b < boundaries@.len() implies boundaries@[a] < boundaries@[b] by {
            lemma_chain_increases(rounded@, a, b);
        }
    }
    Ok(boundaries)
}

/// The label columns of a bin as `fr` weights in lowest terms: the widths
/// between boundaries over their greatest common divisor.
pub fn canonical_columns(boundaries: &Vec<u32>) -> (r: Vec<String>)
    requires
        boundaries_ok(boundaries@),
    ensures
        r@.len() == boundaries@.len() + 1,
        forall|i: int| 0 <= i < r@.len() ==> #[trigger] r@[i]@ == fr_column(column_weights(boundaries@)[i]),
{
    let ghost all = segment_ticks(boundaries@);
    let mut ticks: Vec<u32> = Vec::new();
    let mut previous: u32 = 0;
    let mut i: usize = 0;
    while i < boundaries.len()
        invariant
            i <= boundaries.len(),
            boundaries_ok(boundaries@),
            all == segment_ticks(boundaries@),
            ticks@.len() == i,
            previous == (if i == 0 { 0 } else { boundaries@[i - 1] }),
            forall|k: int| 0 <= k < i ==> #[trigger] ticks@[k] as int == all[k],
        decreases boundaries.len() - i,
    {
        if i > 0 {
            assert(boundaries@[i - 1] < boundaries@[i as int]);
        }
        ticks.push(boundaries[i] - previous);
        previous = boundaries[i];
        i = i + 1;
    }
    ticks.push(1_000_000_000 - previous);
    assert forall|k: int| 0 <= k < ticks@.len() implies #[trigger] ticks@[k] as int == all[k] by {}
    assert(ticks@.map_values(|t: u32| t as int) =~= all);
    let mut divisor: u32 = ticks[0];
    let mut j: usize = 1;
    assert(all.take(1).len() == 1);
    while j < ticks.len()
        invariant
            1 <= j <= ticks.len(),
            ticks@.map_values(|t: u32| t as int) == all,
            divisor as int == fold_gcd(all.take(j as int)),
        decreases ticks.len() - j,
    {
        assert(all.take(j + 1).drop_last() =~= all.take(j as int));
        divisor = gcd(divisor, ticks[j]);
        j = j + 1;
    }
    assert(all.take(ticks.len() as int) =~= all);
    proof {
        lemma_column_weights_exact(boundaries@);
    }
    let mut columns: Vec<String> = Vec::new();
    let mut k: usize = 0;
    while k < ticks.len()
        invariant
            k <= ticks.len(),
            ticks@.map_values(|t: u32| t as int) == all,
            divisor as int == fold_gcd(all),
            divisor >= 1,
            all == segment_ticks(boundaries@),
            columns@.len() == k,
            forall|m: int| 0 <= m < k ==> #[trigger] columns@[m]@ == fr_column(column_weights(boundaries@)[m]),
        decreases ticks.len() - k,
    {
        assert(ticks@[k as int] as int == all[k as int]);
        let weight = ticks[k] / divisor;
        let mut text = decimal_string(weight as u64);
        push_str(&mut text, "fr");
        columns.push(text);
        k = k + 1;
    }
    columns
}

/// The normalized swappable-label interface of a bin: its width in units,
/// its depth, and its column boundaries in billionths of the width.
#[derive(Debug, Clone, PartialEq, Eq)]
pub struct EffectiveLabelInterface {
    pub size_x: u32,
    pub depth_micrometers: u64,
    pub boundaries_ppb: Vec<u32>,
    pub canonical_columns: Vec<String>,
}

impl EffectiveLabelInterface {
    /// The interface from rounded boundaries at the bin's divider walls.
    pub fn from_boundaries(size_x: u32, depth_micrometers: u64, rounded: &Vec<i64>) -> (r: Result<
        EffectiveLabelInterface,
        InterfaceError,
    >)
        ensures
            match boundary_fault(rounded@, 0) {
                Some(e) => r == Err::<EffectiveLabelInterface, InterfaceError>(e),
                None => r matches Ok(li) && li.size_x == size_x && li.depth_micrometers
                    == depth_micrometers && li.boundaries_ppb@.len() == rounded@.len() && (forall|i: int|
                    0 <= i < rounded@.len() ==> #[trigger] li.boundaries_ppb@[i] == rounded@[i])
                    && li.canonical_columns@.len() == rounded@.len() + 1 && forall|i: int|
                    0 <= i <= rounded@.len() ==> #[trigger] li.canonical_columns@[i]@ == fr_column(
                        column_weights(li.boundaries_ppb@)[i],
                    ),
            },
    {
        let boundaries_ppb = label_boundaries(rounded)?;
        let canonical_columns = canonical_columns(&boundaries_ppb);
        Ok(EffectiveLabelInterface { size_x, depth_micrometers, boundaries_ppb, canonical_columns })
    }
}

/// The faces on one side, in order.
pub open spec fn faces_on(faces: Seq<FaceView>, side: Side) -> Seq<FaceView>
    decreases faces.len(),
{
    if faces.len() == 0 {
        seq![]
    } else {
        faces_on(faces.drop_last(), side) + if faces.last().0 == side {
            seq![faces.last()]
        } else {
            seq![]
        }
    }
}

/// The wall face that a custom easy grab names.
pub open spec fn grab_face(entry: EasyGrabFace) -> FaceView {
    (entry.side, entry.columns[0] as int, entry.columns[1] as int, entry.rows[0] as int, entry.rows[1] as int)
}

/// The index of the first custom easy grab, from `i` on, whose face is not
/// one of `valid`.
pub open spec fn first_invalid_grab(valid: Seq<FaceView>, entries: Seq<EasyGrabFace>, i: int) -> Option<int>
    decreases entries.len() - i,
{
    if i < 0 || i >= entries.len() {
        None
    } else if !valid.contains(grab_face(entries[i])) {
        Some(i)
    } else {
        first_invalid_grab(valid, entries, i + 1)
    }
}

/// Why the easy grabs of a bin were rejected.
#[derive(Debug, Clone, Copy, PartialEq, Eq, Structural)]
pub enum EasyGrabError {
    /// A divider merge leaves the grid.
    Merge(MergeError),
    /// A custom easy grab (counted from one) names no complete, capped wall face.
    InvalidFace { face: usize },
}

/// What the easy grab settings select among the faces of a grid.
pub open spec fn easy_grab_selection(divider: DividerConfig, easy_grab: EasyGrabConfig) -> Result<
    Seq<FaceView>,
    EasyGrabError,
> {
    let columns = divider.columns@.len() as int;
    let rows = divider.rows@.len() as int;
    match merge_fault(divider.merges@, columns, rows, 0) {
        Some(e) => Err(EasyGrabError::Merge(e)),
        None => {
            let valid = divider_faces(columns, rows, divider.merges@);
            match easy_grab.mode {
                EasyGrabMode::Off => Ok(seq![]),
                EasyGrabMode::All => Ok(faces_on(valid, easy_grab.side)),
                EasyGrabMode::Custom => match first_invalid_grab(valid, easy_grab.faces@, 0) {
                    Some(i) => Err(EasyGrabError::InvalidFace { face: (i + 1) as usize }),
                    None => Ok(easy_grab.faces@.map_values(|e: EasyGrabFace| grab_face(e))),
                },
            }
        },
    }
}

fn face_listed(faces: &Vec<Face>, wanted: &Face) -> (r: bool)
    ensures
        r == faces_view(faces@).contains(wanted.view()),
{
    let mut i: usize = 0;
    while i < faces.len()
        invariant
            i <= faces.len(),
            forall|k: int| 0 <= k < i ==> faces_view(faces@)[k] != wanted.view(),
        decreases faces.len() - i,
    {
        let f = faces[i];
        if f.side == wanted.side && f.columns[0] == wanted.columns[0] && f.columns[1]
            == wanted.columns[1] && f.rows[0] == wanted.rows[0] && f.rows[1] == wanted.rows[1] {
            assert(faces_view(faces@)[i as int] == wanted.view());
            return true;
        }
        i = i + 1;
    }
    false
}

/// The faces that get easy grabs: none, every face on the configured side,
/// or the listed custom faces, each of which must be a complete, capped wall
/// face of the divider grid.
pub fn easy_grab_faces(divider: &DividerConfig, easy_grab: &EasyGrabConfig) -> (r: Result<
    Vec<Face>,
    EasyGrabError,
>)
    requires
        divider.columns@.len() * divider.rows@.len() <= usize::MAX,
    ensures
        match easy_grab_selection(*divider, *easy_grab) {
            Ok(selected) => r matches Ok(faces) && faces_view(faces@) == selected,
            Err(e) => r == Err::<Vec<Face>, EasyGrabError>(e),
        },
{
    let valid = match all_faces(divider) {
        Ok(faces) => faces,
        Err(e) => {
            return Err(EasyGrabError::Merge(e));
        },
    };
    let ghost vv = faces_view(valid@);
    match easy_grab.mode {
        EasyGrabMode::Off => {
            let none: Vec<Face> = Vec::new();
            assert(faces_view(none@) =~= Seq::<FaceView>::empty());
            Ok(none)
        },
        EasyGrabMode::All => {
            let mut selected: Vec<Face> = Vec::new();
            let mut i: usize = 0;
            while i < valid.len()
                invariant
                    i <= valid.len(),
                    vv == faces_view(valid@),
                    faces_view(selected@) == faces_on(vv.take(i as int), easy_grab.side),
                decreases valid.len() - i,
            {
                assert(vv.take(i + 1).drop_last() =~= vv.take(i as int));
                let ghost before = selected@;
                if valid[i].side == easy_grab.side {
                    selected.push(valid[i]);
                    assert(faces_view(selected@) =~= faces_view(before) + seq![vv[i as int]]);
                } else {
                    assert(faces_view(selected@) =~= faces_view(before) + seq![]);
                }
                i = i + 1;
            }
            assert(vv.take(valid.len() as int) =~= vv);
            Ok(selected)
        },
        EasyGrabMode::Custom => {
            let entries = &easy_grab.faces;
            let mut selected: Vec<Face> = Vec::new();
            let mut i: usize = 0;
            while i < entries.len()
                invariant
                    i <= entries.len(),
                    entries == &easy_grab.faces,
                    easy_grab.mode == EasyGrabMode::Custom,
                    merge_fault(divider.merges@, divider.columns@.len() as int, divider.rows@.len() as int, 0) is None,
                    vv == divider_faces(divider.columns@.len() as int, divider.rows@.len() as int, divider.merges@),
                    vv == faces_view(valid@),
                    first_invalid_grab(vv, entries@, 0) == first_invalid_grab(vv, entries@, i as int),
                    faces_view(selected@) == entries@.take(i as int).map_values(
                        |e: EasyGrabFace| grab_face(e),
                    ),
                decreases entries.len() - i,
            {
                let entry = &entries[i];
                let face = Face { side: entry.side, columns: entry.columns, rows: entry.rows };
                assert(face.view() == grab_face(entries@[i as int]));
                if !face_listed(&valid, &face) {
                    return Err(EasyGrabError::InvalidFace { face: i + 1 });
                }
                let ghost before = selected@;
                selected.push(face);
                assert(entries@.take(i + 1) =~= entries@.take(i as int).push(entries@[i as int]));
                assert(faces_view(selected@) =~= faces_view(before).push(face.view()));
                assert(entries@.take(i + 1).map_values(|e: EasyGrabFace| grab_face(e)) =~= entries@.take(
                    i as int,
                ).map_values(|e: EasyGrabFace| grab_face(e)).push(grab_face(entries@[i as int])));
                i = i + 1;
            }
            assert(entries@.take(entries.len() as int) =~= entries@);
            Ok(selected)
        },
    }
}

/// The name of the part a component restricts an export to.
pub open spec fn component_part(component: BinComponent) -> Option<Seq<char>> {
    match component {
        BinComponent::All => None,
        BinComponent::Bin => Some("Bin"@),
        BinComponent::Base => Some("Base"@),
        BinComponent::SwappableRim => Some("SwappableRim"@),
        BinComponent::SwappableLabel => Some("SwappableLabel"@),
        BinComponent::ConnectorPin => Some("ConnectorPin"@),
    }
}

/// The named parts that the model exports for a configuration, in order.
pub open spec fn part_list(base: BaseConfig, bin: BinBodyConfig, label_enabled: bool, label_swappable: bool) -> Seq<
    Seq<char>,
> {
    (if bin.enabled {
        seq!["Bin"@] + (if bin.nesting && bin.swappable_rim {
            seq!["SwappableRim"@]
        } else {
            seq![]
        }) + (if bin.tub && label_enabled && label_swappable {
            seq!["SwappableLabel"@]
        } else {
            seq![]
        })
    } else {
        seq![]
    }) + (if base.enabled {
        seq!["Base"@] + (if base.magnets && base.connector_pin {
            seq!["ConnectorPin"@]
        } else {
            seq![]
        })
    } else {
        seq![]
    })
}

/// A component that the configuration does not export.
#[derive(Debug, Clone, PartialEq, Eq)]
pub struct MissingPart {
    pub part: String,
    pub available: Vec<String>,
}

impl MissingPart {
    /// The text that reports this error.
    pub fn message(&self) -> (m: String)
        ensures
            m@ == "configured component "@ + self.part@ + " does not exist; available parts: "@
                + name_list(strings_view(self.available@)),
    {
        let mut m = String::new();
        push_str(&mut m, "configured component ");
        push_str(&mut m, self.part.as_str());
        push_str(&mut m, " does not exist; available parts: ");
        let list = display_names(&self.available);
        push_str(&mut m, list.as_str());
        m
    }
}

fn push_part(parts: &mut Vec<String>, name: &str)
    ensures
        strings_view(final(parts)@) == strings_view(old(parts)@).push(name@),
{
    parts.push(name.to_owned());
    assert(strings_view(final(parts)@) =~= strings_view(old(parts)@).push(name@));
}

/// The named parts that an export yields: every part the configuration
/// enables, or only the requested component, which must be one of them.
pub fn expected_parts(
    base: &BaseConfig,
    bin: &BinBodyConfig,
    label_enabled: bool,
    label_swappable: bool,
    component: BinComponent,
) -> (r: Result<Vec<String>, MissingPart>)
    ensures
        match component_part(component) {
            None => r matches Ok(v) && strings_view(v@) == part_list(
                *base,
                *bin,
                label_enabled,
                label_swappable,
            ),
            Some(name) => if part_list(*base, *bin, label_enabled, label_swappable).contains(name) {
                r matches Ok(v) && strings_view(v@) == seq![name]
            } else {
                r matches Err(e) && e.part@ == name && strings_view(e.available@) == part_list(
                    *base,
                    *bin,
                    label_enabled,
                    label_swappable,
                )
            },
        },
{
    let mut parts: Vec<String> = Vec::new();
    if bin.enabled {
        push_part(&mut parts, "Bin");
        if bin.nesting && bin.swappable_rim {
            push_part(&mut parts, "SwappableRim");
        }
        if bin.tub && label_enabled && label_swappable {
            push_part(&mut parts, "SwappableLabel");
        }
    }
    if base.enabled {
        push_part(&mut parts, "Base");
        if base.magnets && base.connector_pin {
            push_part(&mut parts, "ConnectorPin");
        }
    }
    assert(strings_view(parts@) =~= part_list(*base, *bin, label_enabled, label_swappable));
    let name = match component.part_name() {
        None => {
            return Ok(parts);
        },
        Some(name) => name,
    };
    let wanted = name.to_owned();
    let mut i: usize = 0;
    while i < parts.len()
        invariant
            i <= parts.len(),
            wanted@ == name@,
            component_part(component) == Some(name@),
            strings_view(parts@) == part_list(*base, *bin, label_enabled, label_swappable),
            forall|k: int| 0 <= k < i ==> strings_view(parts@)[k] != name@,
        decreases parts.len() - i,
    {
        if parts[i] == wanted {
            let mut only: Vec<String> = Vec::new();
            push_part(&mut only, name);
            assert(strings_view(parts@)[i as int] == name@);
            assert(part_list(*base, *bin, label_enabled, label_swappable).contains(name@));
            assert(strings_view(only@) =~= seq![name@]);
            return Ok(only);
        }
        i = i + 1;
    }
    assert(!part_list(*base, *bin, label_enabled, label_swappable).contains(name@));
    Err(MissingPart { part: wanted, available: parts })
}

/// Why a bin TOML was rejected before its lengths are read.
#[derive(Debug, Clone, Copy, PartialEq, Eq, Structural)]
pub enum BinError {
    /// The file is not of kind `bin`.
    WrongKind,
    /// A full bin carrier of another schema version.
    UnsupportedVersion { version: u32 },
    /// A constituent bin body of another schema version.
    UnsupportedBodyVersion { version: u32 },
    /// A size along an axis (0 for X, 1 for Y, 2 for Z) is zero.
    EmptySize { axis: usize },
    /// The bin body is disabled.
    BodyDisabled,
}

/// The first problem of a bin carrier's kind, version, size and body flag.
pub open spec fn bin_header_fault(kind: ConfigKind, version: u32, size: [u32; 3], bin_enabled: bool) -> Option<
    BinError,
> {
    if kind != ConfigKind::Bin {
        Some(BinError::WrongKind)
    } else if version != BIN_CONFIG_VERSION {
        Some(BinError::UnsupportedVersion { version })
    } else if size[0] == 0 {
        Some(BinError::EmptySize { axis: 0 })
    } else if size[1] == 0 {
        Some(BinError::EmptySize { axis: 1 })
    } else if size[2] == 0 {
        Some(BinError::EmptySize { axis: 2 })
    } else if !bin_enabled {
        Some(BinError::BodyDisabled)
    } else {
        None
    }
}

/// The checks of a bin carrier that come before its lengths: kind, schema
/// version, a non-empty size on every axis, and an enabled bin body.
pub fn check_bin_header(kind: ConfigKind, version: u32, size: [u32; 3], bin_enabled: bool) -> (r:
    Result<(), BinError>)
    ensures
        r == match bin_header_fault(kind, version, size, bin_enabled) {
            Some(e) => Err::<(), BinError>(e),
            None => Ok(()),
        },
{
    if kind != ConfigKind::Bin {
        return Err(BinError::WrongKind);
    }
    if version != BIN_CONFIG_VERSION {
        return Err(BinError::UnsupportedVersion { version });
    }
    let mut axis: usize = 0;
    while axis < 3
        invariant
            axis <= 3,
            kind == ConfigKind::Bin,
            version == BIN_CONFIG_VERSION,
            forall|k: int| 0 <= k < axis ==> size[k] != 0,
        decreases 3 - axis,
    {
        if size[axis] == 0 {
            return Err(BinError::EmptySize { axis });
        }
        axis = axis + 1;
    }
    if !bin_enabled {
        return Err(BinError::BodyDisabled);
    }
    Ok(())
}

/// The bin flags that a constituent bin body's interfaces stand for.
#[derive(Debug, Clone, Copy, PartialEq, Eq, Structural)]
pub struct CarrierFlags {
    pub nesting: bool,
    pub swappable_rim: bool,
    pub label_enabled: bool,
    pub label_swappable: bool,
}

/// Checks a constituent bin body's kind and version, and maps its rim and
/// label interfaces to the carrier's flags: an interface that is not off is
/// present, and a swappable one is swappable.
pub fn constituent_flags(kind: ConfigKind, version: u32, rim: InterfaceMode, label: InterfaceMode) -> (r:
    Result<CarrierFlags, BinError>)
    ensures
        kind != ConfigKind::Bin ==> r == Err::<CarrierFlags, BinError>(BinError::WrongKind),
        kind == ConfigKind::Bin && version != BIN_BODY_CONFIG_VERSION ==> r == Err::<
            CarrierFlags,
            BinError,
        >(BinError::UnsupportedBodyVersion { version }),
        kind == ConfigKind::Bin && version == BIN_BODY_CONFIG_VERSION ==> r == Ok::<
            CarrierFlags,
            BinError,
        >(
            CarrierFlags {
                nesting: rim != InterfaceMode::Off,
                swappable_rim: rim == InterfaceMode::Swappable,
                label_enabled: label != InterfaceMode::Off,
                label_swappable: label == InterfaceMode::Swappable,
            },
        ),
{
    if kind != ConfigKind::Bin {
        return Err(BinError::WrongKind);
    }
    if version != BIN_BODY_CONFIG_VERSION {
        return Err(BinError::UnsupportedBodyVersion { version });
    }
    Ok(
        CarrierFlags {
            nesting: rim != InterfaceMode::Off,
            swappable_rim: rim == InterfaceMode::Swappable,
            label_enabled: label != InterfaceMode::Off,
            label_swappable: label == InterfaceMode::Swappable,
        },
    )
}

impl InterfaceError {
    /// The text that reports this error.
    pub fn message(&self) -> (m: &'static str)
        ensures
            m@ == match self {
                InterfaceError::NoSwappableLabel => "bin does not define a swappable label interface"@,
                InterfaceError::OutsideWidth => "resolved label divider boundary is outside the bin width"@,
                InterfaceError::TooClose => "resolved label divider boundaries are too close to normalize safely"@,
            },
    {
        match self {
            InterfaceError::NoSwappableLabel => "bin does not define a swappable label interface",
            InterfaceError::OutsideWidth => "resolved label divider boundary is outside the bin width",
            InterfaceError::TooClose => "resolved label divider boundaries are too close to normalize safely",
        }
    }
}

impl EasyGrabError {
    /// The text that reports this error.
    pub fn message(&self) -> (m: String)
        ensures
            m@ == match self {
                EasyGrabError::Merge(MergeError::ColumnsOutOfRange { merge }) => "divider merge "@
                    + decimal_digits(*merge as nat) + " columns are out of range"@,
                EasyGrabError::Merge(MergeError::RowsOutOfRange { merge }) => "divider merge "@
                    + decimal_digits(*merge as nat) + " rows are out of range"@,
                EasyGrabError::InvalidFace { face } => "easy-grab face "@ + decimal_digits(*face as nat)
                    + " is not a complete, capped divider wall face"@,
            },
    {
        match self {
            EasyGrabError::Merge(e) => e.message(),
            EasyGrabError::InvalidFace { face } => {
                let mut m = String::new();
                push_str(&mut m, "easy-grab face ");
                let n = decimal_string(*face as u64);
                push_str(&mut m, n.as_str());
                push_str(&mut m, " is not a complete, capped divider wall face");
                m
            },
        }
    }
}

/// The name of a size axis.
pub open spec fn axis_name(axis: usize) -> Seq<char> {
    if axis == 0 {
        "X"@
    } else if axis == 1 {
        "Y"@
    } else {
        "Z"@
    }
}

impl BinError {
    /// The text that reports this error.
    pub fn message(&self) -> (m: String)
        ensures
            m@ == match *self {
                BinError::WrongKind => "bin TOML kind must be \"bin\""@,
                BinError::UnsupportedVersion { version } => "unsupported bin TOML version "@
                    + decimal_digits(version as nat) + "; expected 1"@,
                BinError::UnsupportedBodyVersion { version } => "unsupported constituent bin TOML version "@
                    + decimal_digits(version as nat) + "; expected 2"@,
                BinError::EmptySize { axis } => "bin size "@ + axis_name(axis)
                    + " must be at least one Gridfinity unit"@,
                BinError::BodyDisabled => "bin TOML currently requires bin.enabled = true; the pinned model emits an unnamed helper body for base-only exports"@,
            },
    {
        let mut m = String::new();
        match *self {
            BinError::WrongKind => push_str(&mut m, "bin TOML kind must be \"bin\""),
            BinError::UnsupportedVersion { version } => {
                push_str(&mut m, "unsupported bin TOML version ");
                let n = decimal_string(version as u64);
                push_str(&mut m, n.as_str());
                push_str(&mut m, "; expected 1");
            },
            BinError::UnsupportedBodyVersion { version } => {
                push_str(&mut m, "unsupported constituent bin TOML version ");
                let n = decimal_string(version as u64);
                push_str(&mut m, n.as_str());
                push_str(&mut m, "; expected 2");
            },
            BinError::EmptySize { axis } => {
                push_str(&mut m, "bin size ");
                if axis == 0 {
                    push_str(&mut m, "X");
                } else if axis == 1 {
                    push_str(&mut m, "Y");
                } else {
                    push_str(&mut m, "Z");
                }
                push_str(&mut m, " must be at least one Gridfinity unit");
            },
            BinError::BodyDisabled => push_str(
                &mut m,
                "bin TOML currently requires bin.enabled = true; the pinned model emits an unnamed helper body for base-only exports",
            ),
        }
        m
    }
}
} // verus!
