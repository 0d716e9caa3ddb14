//! The placement solver: backtracking search for one marker per row such
//! that no column is reused, no two markers touch diagonally, and no two
//! markers share a cell color.

use vstd::prelude::*;
use vstd::set_lib::lemma_len_subset;
use vstd::set_lib::lemma_subset_equality;

use crate::errors::BoardError;
use crate::html_parser::contains_seq;
use crate::html_parser::contains_str;

verus! {

/// The closed set of region colors a board cell can carry.
#[derive(Debug, Clone, Copy, PartialEq, Eq, Hash, Structural)]
pub enum CellColor {
    PeachOrange,
    SoftBlue,
    PastelGreen,
    LightGray,
    VibrantCoral,
    LimeYellow,
    Lavender,
    WarmBeige,
    DarkGray,
    Pink,
}

/// The color a cell's accessibility label names, decided by the first
/// color name the label contains, in lookup order.
pub open spec fn color_of_label(s: Seq<char>) -> Option<CellColor> {
    if contains_seq(s, "Peach Orange"@) {
        Some(CellColor::PeachOrange)
    } else if contains_seq(s, "Soft Blue"@) {
        Some(CellColor::SoftBlue)
    } else if contains_seq(s, "Pastel Green"@) {
        Some(CellColor::PastelGreen)
    } else if contains_seq(s, "Light Gray"@) {
        Some(CellColor::LightGray)
    } else if contains_seq(s, "Vibrant Coral"@) {
        Some(CellColor::VibrantCoral)
    } else if contains_seq(s, "Lime Yellow"@) {
        Some(CellColor::LimeYellow)
    } else if contains_seq(s, "Lavender"@) {
        Some(CellColor::Lavender)
    } else if contains_seq(s, "Warm Beige"@) {
        Some(CellColor::WarmBeige)
    } else if contains_seq(s, "Dark Gray"@) {
        Some(CellColor::DarkGray)
    } else if contains_seq(s, "Pink"@) {
        Some(CellColor::Pink)
    } else {
        None
    }
}

impl CellColor {
    /// Reads the region color out of a cell's accessibility label.
    pub fn from_aria_label(label: &str) -> (r: Option<CellColor>)
        ensures
            r == color_of_label(label@),
    {
        if contains_str(label, "Peach Orange") {
            Some(CellColor::PeachOrange)
        } else if contains_str(label, "Soft Blue") {
            Some(CellColor::SoftBlue)
        } else if contains_str(label, "Pastel Green") {
            Some(CellColor::PastelGreen)
        } else if contains_str(label, "Light Gray") {
            Some(CellColor::LightGray)
        } else if contains_str(label, "Vibrant Coral") {
            Some(CellColor::VibrantCoral)
        } else if contains_str(label, "Lime Yellow") {
            Some(CellColor::LimeYellow)
        } else if contains_str(label, "Lavender") {
            Some(CellColor::Lavender)
        } else if contains_str(label, "Warm Beige") {
            Some(CellColor::WarmBeige)
        } else if contains_str(label, "Dark Gray") {
            Some(CellColor::DarkGray)
        } else if contains_str(label, "Pink") {
            Some(CellColor::Pink)
        } else {
            None
        }
    }
}

/// Marker state of one cell during the search.
#[derive(Debug, Clone, Copy)]
pub enum Status {
    Queen,
}

/// Position of each color in the fixed palette; used to index `ColorSet`.
pub open spec fn color_index(c: CellColor) -> int {
    match c {
        CellColor::PeachOrange => 0,
        CellColor::SoftBlue => 1,
        CellColor::PastelGreen => 2,
        CellColor::LightGray => 3,
        CellColor::VibrantCoral => 4,
        CellColor::LimeYellow => 5,
        CellColor::Lavender => 6,
        CellColor::WarmBeige => 7,
        CellColor::DarkGray => 8,
        CellColor::Pink => 9,
    }
}

/// Executable twin of `color_index`.
pub fn color_index_exec(c: CellColor) -> (i: usize)
    ensures
        i == color_index(c),
{
    match c {
        CellColor::PeachOrange => 0,
        CellColor::SoftBlue => 1,
        CellColor::PastelGreen => 2,
        CellColor::LightGray => 3,
        CellColor::VibrantCoral => 4,
        CellColor::LimeYellow => 5,
        CellColor::Lavender => 6,
        CellColor::WarmBeige => 7,
        CellColor::DarkGray => 8,
        CellColor::Pink => 9,
    }
}

/// The set of colors already holding a marker in the current partial
/// solution, kept as one flag per palette entry.
pub struct ColorSet {
    pub used: Vec<bool>,
}

impl ColorSet {
    pub open spec fn wf(&self) -> bool {
        self.used@.len() == 10
    }

    pub open spec fn view(&self) -> Set<CellColor> {
        Set::new(|c: CellColor| self.used@[color_index(c)])
    }

    pub fn new() -> (s: ColorSet)
        ensures
            s.wf(),
            s@ == Set::<CellColor>::empty(),
    {
        let mut used: Vec<bool> = Vec::new();
        let mut i: usize = 0;
        while i < 10
            invariant
                used@.len() == i,
                i <= 10,
                forall|j: int| 0 <= j < i ==> !used@[j],
            decreases 10 - i,
        {
            used.push(false);
            i = i + 1;
        }
        let s = ColorSet { used };
        proof {
            assert(s@ =~= Set::<CellColor>::empty());
        }
        s
    }

    pub fn contains(&self, c: CellColor) -> (r: bool)
        requires
            self.wf(),
        ensures
            r == self@.contains(c),
    {
        self.used[color_index_exec(c)]
    }

    pub fn insert(&mut self, c: CellColor)
        requires
            old(self).wf(),
        ensures
            final(self).wf(),
            final(self)@ == old(self)@.insert(c),
    {
        let i = color_index_exec(c);
        self.used.set(i, true);
        proof {
            lemma_color_index_injective();
            assert(self@ =~= old(self)@.insert(c));
        }
    }

    pub fn remove(&mut self, c: CellColor)
        requires
            old(self).wf(),
        ensures
            final(self).wf(),
            final(self)@ == old(self)@.remove(c),
    {
        let i = color_index_exec(c);
        self.used.set(i, false);
        proof {
            lemma_color_index_injective();
            assert(self@ =~= old(self)@.remove(c));
        }
    }
}

/// Two distinct palette colors never share an index.
pub proof fn lemma_color_index_injective()
    ensures
        forall|c1: CellColor, c2: CellColor| color_index(c1) == color_index(c2) ==> c1 == c2,
{
}

/// The mathematical value of a row-major vector-of-rows board.
pub open spec fn grid_of(b: Seq<Vec<CellColor>>) -> Seq<Seq<CellColor>> {
    Seq::new(b.len(), |i: int| b[i]@)
}

/// A board is square: `n` rows of `n` cells each.
pub open spec fn board_wf(b: Seq<Seq<CellColor>>, n: int) -> bool {
    &&& b.len() == n
    &&& forall|i: int| 0 <= i < n ==> (#[trigger] b[i]).len() == n
}

/// Markers at `(r1, c1)` and `(r2, c2)` touch corner to corner.
pub open spec fn diag_adjacent(r1: int, c1: int, r2: int, c2: int) -> bool {
    &&& (r1 - r2 == 1 || r2 - r1 == 1)
    &&& (c1 - c2 == 1 || c2 - c1 == 1)
}

/// `cols[i]` is the marker column of row `i`. A (partial) placement is
/// valid when all columns are in range and pairwise distinct, no two
/// markers are diagonally adjacent, and no color is used twice.
pub open spec fn partial_valid(b: Seq<Seq<CellColor>>, cols: Seq<usize>) -> bool {
    &&& forall|i: int| 0 <= i < cols.len() ==> (#[trigger] cols[i]) < b.len()
    &&& forall|i: int, j: int| 0 <= i < j < cols.len() ==> cols[i] != cols[j]
    &&& forall|i: int, j: int|
        0 <= i < j < cols.len() ==> !diag_adjacent(i, #[trigger] cols[i] as int, j, #[trigger] cols[j] as int)
    &&& forall|i: int, j: int|
        0 <= i < j < cols.len() ==> b[i][#[trigger] cols[i] as int] != b[j][#[trigger] cols[j] as int]
}

/// A full solution: one marker in every row, all constraints met.
pub open spec fn valid_solution(b: Seq<Seq<CellColor>>, cols: Seq<usize>) -> bool {
    &&& cols.len() == b.len()
    &&& partial_valid(b, cols)
}

/// The colors the first `cols.len()` rows have a marker on.
pub open spec fn used_colors(b: Seq<Seq<CellColor>>, cols: Seq<usize>) -> Set<CellColor> {
    Set::new(|c: CellColor| exists|i: int| 0 <= i < cols.len() && b[i][#[trigger] cols[i] as int] == c)
}

/// The marker grid has a marker exactly on the cells the partial
/// placement `cols` picked.
pub open spec fn status_matches(st: Seq<Vec<Option<Status>>>, n: int, cols: Seq<usize>) -> bool {
    &&& st.len() == n
    &&& forall|r: int| 0 <= r < n ==> (#[trigger] st[r])@.len() == n
    &&& forall|r: int, c: int|
        0 <= r < n && 0 <= c < n ==> ((#[trigger] st[r]@[c]) is Some <==> r < cols.len() && cols[r] == c)
}

/// Two marker grids hold the same cells.
pub open spec fn grid_view_eq(a: Seq<Vec<Option<Status>>>, b: Seq<Vec<Option<Status>>>) -> bool {
    &&& a.len() == b.len()
    &&& forall|i: int| 0 <= i < a.len() ==> (#[trigger] a[i])@ == b[i]@
}

/// `sol` agrees with `prefix` on the first `prefix.len()` rows.
pub open spec fn extends(sol: Seq<usize>, prefix: Seq<usize>) -> bool {
    &&& prefix.len() <= sol.len()
    &&& sol.subrange(0, prefix.len() as int) == prefix
}

/// No full solution of board `b` starts with the rows placed in `prefix`.
pub open spec fn no_extension(b: Seq<Seq<CellColor>>, prefix: Seq<usize>) -> bool {
    forall|sol: Seq<usize>|
        !(#[trigger] valid_solution(b, sol) && #[trigger] extends(sol, prefix))
}

/// The cell at `(row, col)` is open for a marker: its column is free in
/// all earlier rows and neither upper diagonal neighbor holds a marker.
pub open spec fn place_free(st: Seq<Vec<Option<Status>>>, n: int, row: int, col: int) -> bool {
    &&& forall|rr: int| 0 <= rr < row ==> !((#[trigger] st[rr]@[col]) is Some)
    &&& (row == 0 || col == 0 || !(st[row - 1]@[col - 1] is Some))
    &&& (row == 0 || col + 1 >= n || !(st[row - 1]@[col + 1] is Some))
}

/// Every color that appears somewhere on the board.
pub open spec fn board_colors(b: Seq<Seq<CellColor>>) -> Set<CellColor> {
    Set::new(
        |c: CellColor|
            exists|i: int, j: int| 0 <= i < b.len() && 0 <= j < b[i].len() && b[i][j] == c,
    )
}

/// The whole fixed palette as a set.
pub open spec fn all_colors() -> Set<CellColor> {
    set![
        CellColor::PeachOrange,
        CellColor::SoftBlue,
        CellColor::PastelGreen,
        CellColor::LightGray,
        CellColor::VibrantCoral,
        CellColor::LimeYellow,
        CellColor::Lavender,
        CellColor::WarmBeige,
        CellColor::DarkGray,
        CellColor::Pink,
    ]
}

/// The palette is finite and holds every `CellColor`.
pub proof fn lemma_all_colors_finite()
    ensures
        all_colors().finite(),
        forall|c: CellColor| all_colors().contains(c),
{
    assert forall|c: CellColor| all_colors().contains(c) by {
        match c {
            CellColor::PeachOrange => assert(all_colors().contains(CellColor::PeachOrange)),
            CellColor::SoftBlue => assert(all_colors().contains(CellColor::SoftBlue)),
            CellColor::PastelGreen => assert(all_colors().contains(CellColor::PastelGreen)),
            CellColor::LightGray => assert(all_colors().contains(CellColor::LightGray)),
            CellColor::VibrantCoral => assert(all_colors().contains(CellColor::VibrantCoral)),
            CellColor::LimeYellow => assert(all_colors().contains(CellColor::LimeYellow)),
            CellColor::Lavender => assert(all_colors().contains(CellColor::Lavender)),
            CellColor::WarmBeige => assert(all_colors().contains(CellColor::WarmBeige)),
            CellColor::DarkGray => assert(all_colors().contains(CellColor::DarkGray)),
            CellColor::Pink => assert(all_colors().contains(CellColor::Pink)),
        }
    }
}

/// A prefix of a valid partial placement is itself valid.
pub proof fn lemma_prefix_partial_valid(b: Seq<Seq<CellColor>>, cols: Seq<usize>, k: int)
    requires
        partial_valid(b, cols),
        0 <= k <= cols.len(),
    ensures
        partial_valid(b, cols.subrange(0, k)),
{
    let pre = cols.subrange(0, k);
    assert forall|i: int| 0 <= i < pre.len() implies (#[trigger] pre[i]) < b.len() by {
        assert(pre[i] == cols[i]);
    }
    assert forall|i: int, j: int| 0 <= i < j < pre.len() implies pre[i] != pre[j] by {
        assert(pre[i] == cols[i] && pre[j] == cols[j]);
    }
    assert forall|i: int, j: int|
        0 <= i < j < pre.len() implies !diag_adjacent(i, #[trigger] pre[i] as int, j, #[trigger] pre[j] as int) by {
        assert(pre[i] == cols[i] && pre[j] == cols[j]);
    }
    assert forall|i: int, j: int|
        0 <= i < j < pre.len() implies b[i][#[trigger] pre[i] as int] != b[j][#[trigger] pre[j] as int] by {
        assert(pre[i] == cols[i] && pre[j] == cols[j]);
    }
}

/// Appending a row that clashes with none of the placed rows keeps a
/// partial placement valid.
pub proof fn lemma_push_partial_valid(b: Seq<Seq<CellColor>>, prefix: Seq<usize>, col: usize)
    requires
        partial_valid(b, prefix),
        prefix.len() < b.len(),
        col < b.len(),
        forall|i: int| 0 <= i < prefix.len() ==> (#[trigger] prefix[i]) != col,
        prefix.len() > 0 ==> !diag_adjacent(
            prefix.len() - 1,
            prefix[prefix.len() - 1] as int,
            prefix.len() as int,
            col as int,
        ),
        forall|i: int|
            0 <= i < prefix.len() ==> b[i][#[trigger] prefix[i] as int] != b[prefix.len() as int][col as int],
    ensures
        partial_valid(b, prefix.push(col)),
{
    let ext = prefix.push(col);
    let m = prefix.len() as int;
    assert forall|i: int, j: int|
        0 <= i < j < ext.len() implies !diag_adjacent(i, #[trigger] ext[i] as int, j, #[trigger] ext[j] as int) by {
        if j < m {
            assert(ext[i] == prefix[i] && ext[j] == prefix[j]);
        } else {
            assert(ext[j] == col);
            if i < m - 1 {
                assert(!diag_adjacent(i, ext[i] as int, j, ext[j] as int));
            } else {
                assert(ext[i] == prefix[m - 1]);
            }
        }
    }
    assert forall|i: int, j: int|
        0 <= i < j < ext.len() implies b[i][#[trigger] ext[i] as int] != b[j][#[trigger] ext[j] as int] by {
        if j < m {
            assert(ext[i] == prefix[i] && ext[j] == prefix[j]);
        } else {
            assert(ext[i] == prefix[i] && ext[j] == col);
        }
    }
}

/// A solution that goes on with `col` right after `prefix` extends
/// `prefix.push(col)`.
pub proof fn lemma_extends_push(sol: Seq<usize>, prefix: Seq<usize>, col: usize)
    requires
        extends(sol, prefix),
        prefix.len() < sol.len(),
        sol[prefix.len() as int] == col,
    ensures
        extends(sol, prefix.push(col)),
{
    let m = prefix.len() as int;
    assert forall|i: int| 0 <= i < m + 1 implies sol.subrange(0, m + 1)[i] == prefix.push(col)[i] by {
        if i < m {
            assert(sol.subrange(0, m)[i] == prefix[i]);
        }
    }
    assert(sol.subrange(0, m + 1) =~= prefix.push(col));
}

/// A valid partial placement marks as many distinct colors as it has rows.
pub proof fn lemma_used_colors_len(b: Seq<Seq<CellColor>>, cols: Seq<usize>)
    requires
        partial_valid(b, cols),
        cols.len() <= b.len(),
    ensures
        used_colors(b, cols).finite(),
        used_colors(b, cols).len() == cols.len(),
    decreases cols.len(),
{
    if cols.len() == 0 {
        assert(used_colors(b, cols) =~= Set::<CellColor>::empty());
    } else {
        let m = cols.len() - 1;
        let pre = cols.subrange(0, m);
        lemma_prefix_partial_valid(b, cols, m);
        lemma_used_colors_len(b, pre);
        let cell = b[m][cols[m] as int];
        assert forall|c: CellColor|
            used_colors(b, cols).contains(c) == #[trigger] used_colors(b, pre).insert(cell).contains(
                c,
            ) by {
            if used_colors(b, cols).contains(c) {
                let i = choose|i: int| 0 <= i < cols.len() && b[i][#[trigger] cols[i] as int] == c;
                if i < m {
                    assert(pre[i] == cols[i]);
                    assert(used_colors(b, pre).contains(c));
                } else {
                    assert(c == cell);
                }
            }
            if used_colors(b, pre).insert(cell).contains(c) {
                if used_colors(b, pre).contains(c) {
                    let i = choose|i: int| 0 <= i < pre.len() && b[i][#[trigger] pre[i] as int] == c;
                    assert(cols[i] == pre[i]);
                    assert(used_colors(b, cols).contains(c));
                } else {
                    assert(c == cell);
                    assert(b[m][cols[m] as int] == c);
                    assert(used_colors(b, cols).contains(c));
                }
            }
        }
        assert(used_colors(b, cols) =~= used_colors(b, pre).insert(cell));
        if used_colors(b, pre).contains(cell) {
            let i = choose|i: int| 0 <= i < pre.len() && b[i][#[trigger] pre[i] as int] == cell;
            assert(cols[i] == pre[i]);
            assert(b[i][cols[i] as int] == b[m][cols[m] as int]);
            assert(false);
        }
    }
}

/// Law: on a board whose realized color set has exactly one color per
/// row, any valid solution marks each board color exactly once — the set
/// of marked colors is the board's whole color set.
pub proof fn lemma_solution_covers_colors(b: Seq<Seq<CellColor>>, cols: Seq<usize>)
    requires
        board_wf(b, b.len() as int),
        valid_solution(b, cols),
        board_colors(b).len() == b.len(),
    ensures
        used_colors(b, cols) == board_colors(b),
        used_colors(b, cols).len() == cols.len(),
{
    lemma_used_colors_len(b, cols);
    assert forall|c: CellColor| used_colors(b, cols).contains(c) implies board_colors(b).contains(
        c,
    ) by {
        let i = choose|i: int| 0 <= i < cols.len() && b[i][#[trigger] cols[i] as int] == c;
        assert(0 <= i < b.len() && 0 <= (cols[i] as int) < b[i].len() && b[i][cols[i] as int] == c);
    }
    lemma_all_colors_finite();
    assert(board_colors(b).subset_of(all_colors()));
    lemma_len_subset(board_colors(b), all_colors());
    lemma_subset_equality(used_colors(b, cols), board_colors(b));
    assert(used_colors(b, cols) == board_colors(b));
}

/// One trial cell of the backtracking search: `true` exactly when the
/// column is unused, the upper diagonal neighbors are free and the cell's
/// color has no marker yet.
pub fn is_valid(
    board: &Vec<Vec<CellColor>>,
    status: &Vec<Vec<Option<Status>>>,
    row: usize,
    col: usize,
    n: usize,
    colors: &ColorSet,
) -> (r: bool)
    requires
        n == board@.len(),
        board_wf(grid_of(board@), n as int),
        status@.len() == n,
        forall|i: int| 0 <= i < n ==> (#[trigger] status@[i])@.len() == n,
        row < n,
        col < n,
        colors.wf(),
    ensures
        r <==> (place_free(status@, n as int, row as int, col as int)
            && !colors@.contains(grid_of(board@)[row as int][col as int])),
{
    let mut rr: usize = 0;
    while rr < row
        invariant
            rr <= row,
            row < n,
            col < n,
            status@.len() == n,
            forall|i: int| 0 <= i < n ==> (#[trigger] status@[i])@.len() == n,
            forall|i: int| 0 <= i < rr ==> !((#[trigger] status@[i]@[col as int]) is Some),
        decreases row - rr,
    {
        if status[rr][col].is_some() {
            return false;
        }
        rr = rr + 1;
    }
    if row > 0 {
        if col > 0 {
            if status[row - 1][col - 1].is_some() {
                return false;
            }
        }
        if col + 1 < n {
            if status[row - 1][col + 1].is_some() {
                return false;
            }
        }
    }
    proof {
        assert(grid_of(board@)[row as int].len() == n);
    }
    if colors.contains(board[row][col]) {
        return false;
    }
    true
}

/// Depth-first search from `row` down: tries every column of `row`,
/// places a marker, recurses, and undoes the trial on failure. Returns
/// `true` exactly when the partial placement in `chosen` can be finished;
/// on `false` all mutated state is back to its value at entry.
pub fn backtrack(
    board: &Vec<Vec<CellColor>>,
    status: &mut Vec<Vec<Option<Status>>>,
    row: usize,
    n: usize,
    colors: &mut ColorSet,
    chosen: &mut Vec<usize>,
) -> (found: bool)
    requires
        n == board@.len(),
        board_wf(grid_of(board@), n as int),
        row <= n,
        old(chosen)@.len() == row,
        partial_valid(grid_of(board@), old(chosen)@),
        status_matches(old(status)@, n as int, old(chosen)@),
        old(colors).wf(),
        old(colors)@ == used_colors(grid_of(board@), old(chosen)@),
    ensures
        found ==> valid_solution(grid_of(board@), final(chosen)@)
            && final(chosen)@.subrange(0, row as int) == old(chosen)@,
        !found ==> {
            &&& final(chosen)@ == old(chosen)@
            &&& grid_view_eq(final(status)@, old(status)@)
            &&& final(colors).wf()
            &&& final(colors)@ == old(colors)@
            &&& no_extension(grid_of(board@), old(chosen)@)
        },
    decreases n - row,
{
    let ghost b = grid_of(board@);
    let ghost prefix = chosen@;
    let ghost st0 = status@;
    if row == n {
        proof {
            assert(chosen@.subrange(0, row as int) =~= chosen@);
        }
        return true;
    }
    let mut col: usize = 0;
    while col < n
        invariant
            n == board@.len(),
            board_wf(b, n as int),
            b == grid_of(board@),
            row < n,
            col <= n,
            chosen@ == prefix,
            prefix == old(chosen)@,
            prefix.len() == row,
            partial_valid(b, prefix),
            status_matches(status@, n as int, prefix),
            grid_view_eq(status@, st0),
            st0 == old(status)@,
            colors.wf(),
            colors@ == used_colors(b, prefix),
            forall|sol: Seq<usize>|
                #[trigger] valid_solution(b, sol) && #[trigger] extends(sol, prefix)
                    && sol[row as int] < col ==> false,
        decreases n - col,
    {
        let ghost st_pre = status@;
        if is_valid(board, status, row, col, n, colors) {
            let cell = board[row][col];
            status[row].set(col, Some(Status::Queen));
            colors.insert(cell);
            chosen.push(col);
            proof {
                // The placement test, read through the grid and color-set
                // correspondences, says the extended prefix is still valid.
                assert forall|i: int| 0 <= i < prefix.len() implies (#[trigger] prefix[i]) != col by {
                    if prefix[i] == col {
                        assert(st_pre[i]@[col as int] is Some);
                    }
                }
                if prefix.len() > 0 {
                    if diag_adjacent(
                        prefix.len() - 1,
                        prefix[prefix.len() - 1] as int,
                        prefix.len() as int,
                        col as int,
                    ) {
                        if prefix[prefix.len() - 1] as int == col - 1 {
                            assert(st_pre[row - 1]@[col - 1] is Some);
                        } else {
                            assert(prefix[prefix.len() - 1] as int == col + 1);
                            assert(st_pre[row - 1]@[col + 1] is Some);
                        }
                    }
                }
                assert forall|i: int|
                    0 <= i < prefix.len() implies b[i][#[trigger] prefix[i] as int] != b[row as int][col as int] by {
                    if b[i][prefix[i] as int] == b[row as int][col as int] {
                        assert(used_colors(b, prefix).contains(b[row as int][col as int]));
                    }
                }
                lemma_push_partial_valid(b, prefix, col);
                // The grid after the update corresponds to the extended prefix.
                assert forall|r: int, c: int|
                    0 <= r < n && 0 <= c < n implies
                    ((#[trigger] status@[r]@[c]) is Some <==> r < prefix.push(col).len()
                        && prefix.push(col)[r] == c) by {
                    if r != row {
                        assert(status@[r]@ == st_pre[r]@);
                    }
                }
                // The color set after the insertion holds the colors of the
                // extended prefix.
                assert forall|c: CellColor|
                    used_colors(b, prefix.push(col)).contains(c) ==
                        #[trigger] used_colors(b, prefix).insert(cell).contains(c) by {
                    let ext = prefix.push(col);
                    if used_colors(b, ext).contains(c) {
                        let i = choose|i: int| 0 <= i < ext.len() && b[i][ext[i] as int] == c;
                        if i < prefix.len() {
                            assert(b[i][prefix[i] as int] == c);
                            assert(used_colors(b, prefix).contains(c));
                        } else {
                            assert(c == cell);
                        }
                    }
                    if used_colors(b, prefix).insert(cell).contains(c) {
                        if used_colors(b, prefix).contains(c) {
                            let i = choose|i: int| 0 <= i < prefix.len() && b[i][prefix[i] as int] == c;
                            assert(ext[i] == prefix[i]);
                            assert(used_colors(b, ext).contains(c));
                        } else {
                            assert(c == cell);
                            assert(ext[row as int] == col);
                            assert(used_colors(b, ext).contains(c));
                        }
                    }
                }
                assert(used_colors(b, prefix.push(col)) =~= used_colors(b, prefix).insert(cell));
            }
            if backtrack(board, status, row + 1, n, colors, chosen) {
                proof {
                    let m = row as int;
                    assert(chosen@.subrange(0, m + 1) == prefix.push(col));
                    assert forall|i: int| 0 <= i < m implies chosen@.subrange(0, m)[i] == prefix[i] by {
                        assert(chosen@.subrange(0, m + 1)[i] == prefix.push(col)[i]);
                    }
                    assert(chosen@.subrange(0, m) =~= prefix);
                }
                return true;
            }
            let ghost st_mid = status@;
            status[row].set(col, None);
            colors.remove(cell);
            chosen.pop();
            proof {
                // The trial is undone: grid, color set and chosen columns are
                // back to their values at the start of this iteration.
                assert(chosen@ =~= prefix);
                assert forall|r: int| 0 <= r < n implies (#[trigger] status@[r])@ == st_pre[r]@ by {
                    if r != row {
                        assert(status@[r]@ == st_mid[r]@);
                    } else {
                        assert(!(st_pre[row as int]@[col as int] is Some));
                        assert(status@[row as int]@ =~= st_pre[row as int]@);
                    }
                }
                assert(colors@ =~= used_colors(b, prefix));
                // The recursive call refuted every solution that places this
                // column here; fold that into the loop's running fact.
                assert forall|sol: Seq<usize>|
                    #[trigger] valid_solution(b, sol) && #[trigger] extends(sol, prefix)
                        && sol[row as int] < col + 1 implies false by {
                    if sol[row as int] == col {
                        assert(sol.len() == b.len());
                        lemma_extends_push(sol, prefix, col);
                        assert(!(valid_solution(b, sol) && extends(sol, prefix.push(col))));
                    }
                }
            }
        } else {
            proof {
                // The placement test failed, so any solution that places this
                // column here breaks one of the three constraints.
                let cellc = b[row as int][col as int];
                assert forall|sol: Seq<usize>|
                    #[trigger] valid_solution(b, sol) && #[trigger] extends(sol, prefix)
                        && sol[row as int] < col + 1 implies false by {
                    if sol[row as int] == col {
                        assert(sol.len() == b.len());
                        assert forall|i: int| 0 <= i < row implies #[trigger] sol[i] == prefix[i] by {
                            assert(sol.subrange(0, prefix.len() as int)[i] == prefix[i]);
                        }
                        if colors@.contains(cellc) {
                            let i = choose|i: int|
                                0 <= i < prefix.len() && b[i][#[trigger] prefix[i] as int] == cellc;
                            assert(b[i][sol[i] as int] == b[row as int][sol[row as int] as int]);
                        } else if !place_free(status@, n as int, row as int, col as int) {
                            if exists|rr: int|
                                0 <= rr < row && ((#[trigger] status@[rr]@[col as int]) is Some) {
                                let i = choose|rr: int|
                                    0 <= rr < row && ((#[trigger] status@[rr]@[col as int]) is Some);
                                assert(prefix[i] == col);
                                assert(sol[i] == sol[row as int]);
                            } else if row > 0 && col > 0 && status@[row - 1]@[col - 1] is Some {
                                assert(prefix[row - 1] == col - 1);
                                assert(diag_adjacent(
                                    row - 1,
                                    sol[row - 1] as int,
                                    row as int,
                                    sol[row as int] as int,
                                ));
                            } else {
                                assert(row > 0 && col + 1 < n && status@[row - 1]@[col + 1] is Some);
                                assert(prefix[row - 1] == col + 1);
                                assert(diag_adjacent(
                                    row - 1,
                                    sol[row - 1] as int,
                                    row as int,
                                    sol[row as int] as int,
                                ));
                            }
                        }
                    }
                }
            }
        }
        col = col + 1;
    }
    proof {
        assert forall|sol: Seq<usize>|
            !(#[trigger] valid_solution(b, sol) && #[trigger] extends(sol, prefix)) by {
            if valid_solution(b, sol) && extends(sol, prefix) {
                assert(sol.len() == b.len());
                assert(sol[row as int] < n);
            }
        }
    }
    false
}

/// How many cells of one row are still unvisited.
pub open spec fn count_false_row(r: Seq<bool>) -> int
    decreases r.len(),
{
    if r.len() == 0 {
        0
    } else {
        count_false_row(r.drop_last()) + if r.last() {
            0int
        } else {
            1int
        }
    }
}

/// How many cells of the whole grid are still unvisited.
pub open spec fn count_false_grid(g: Seq<Vec<bool>>) -> int
    decreases g.len(),
{
    if g.len() == 0 {
        0
    } else {
        count_false_grid(g.drop_last()) + count_false_row(g.last()@)
    }
}

/// A square `n` by `n` grid of flags.
pub open spec fn visited_wf(v: Seq<Vec<bool>>, n: int) -> bool {
    &&& v.len() == n
    &&& forall|r: int| 0 <= r < n ==> (#[trigger] v[r])@.len() == n
}

/// `b` has every flag `a` has (flags only ever get set).
pub open spec fn visited_le(a: Seq<Vec<bool>>, b: Seq<Vec<bool>>) -> bool {
    &&& a.len() == b.len()
    &&& forall|r: int| 0 <= r < a.len() ==> (#[trigger] a[r])@.len() == b[r]@.len()
    &&& forall|r: int, c: int|
        0 <= r < a.len() && 0 <= c < a[r]@.len() ==> ((#[trigger] a[r]@[c]) ==> b[r]@[c])
}

pub proof fn lemma_count_false_row_nonneg(r: Seq<bool>)
    ensures
        count_false_row(r) >= 0,
    decreases r.len(),
{
    if r.len() > 0 {
        lemma_count_false_row_nonneg(r.drop_last());
    }
}

pub proof fn lemma_count_false_grid_nonneg(g: Seq<Vec<bool>>)
    ensures
        count_false_grid(g) >= 0,
    decreases g.len(),
{
    if g.len() > 0 {
        lemma_count_false_grid_nonneg(g.drop_last());
        lemma_count_false_row_nonneg(g.last()@);
    }
}

pub proof fn lemma_count_false_row_le(a: Seq<bool>, b: Seq<bool>)
    requires
        a.len() == b.len(),
        forall|c: int| 0 <= c < a.len() ==> ((#[trigger] a[c]) ==> b[c]),
    ensures
        count_false_row(b) <= count_false_row(a),
    decreases a.len(),
{
    if a.len() > 0 {
        assert forall|c: int|
            0 <= c < a.drop_last().len() && (#[trigger] a.drop_last()[c]) implies b.drop_last()[c] by {
            assert(a.drop_last()[c] == a[c] && b.drop_last()[c] == b[c]);
        }
        lemma_count_false_row_le(a.drop_last(), b.drop_last());
    }
}

pub proof fn lemma_count_false_grid_le(a: Seq<Vec<bool>>, b: Seq<Vec<bool>>)
    requires
        visited_le(a, b),
    ensures
        count_false_grid(b) <= count_false_grid(a),
    decreases a.len(),
{
    if a.len() > 0 {
        let m = a.len() - 1;
        assert(visited_le(a.drop_last(), b.drop_last()));
        lemma_count_false_grid_le(a.drop_last(), b.drop_last());
        lemma_count_false_row_le(a[m]@, b[m]@);
    }
}

pub proof fn lemma_count_false_row_set(r: Seq<bool>, j: int)
    requires
        0 <= j < r.len(),
        !r[j],
    ensures
        count_false_row(r.update(j, true)) == count_false_row(r) - 1,
    decreases r.len(),
{
    let r2 = r.update(j, true);
    if j == r.len() - 1 {
        assert(r2.drop_last() =~= r.drop_last());
    } else {
        assert(r2.drop_last() =~= r.drop_last().update(j, true));
        lemma_count_false_row_set(r.drop_last(), j);
    }
}

pub proof fn lemma_count_false_grid_set(g: Seq<Vec<bool>>, g2: Seq<Vec<bool>>, i: int, j: int)
    requires
        0 <= i < g.len(),
        0 <= j < g[i]@.len(),
        !g[i]@[j],
        g2.len() == g.len(),
        g2[i]@ == g[i]@.update(j, true),
        forall|r: int| 0 <= r < g.len() && r != i ==> (#[trigger] g2[r])@ == g[r]@,
    ensures
        count_false_grid(g2) == count_false_grid(g) - 1,
    decreases g.len(),
{
    let m = g.len() - 1;
    if i == m {
        assert forall|r: int| 0 <= r < m implies (#[trigger] g2.drop_last()[r])@
            == g.drop_last()[r]@ by {
            assert(g2.drop_last()[r] == g2[r] && g.drop_last()[r] == g[r]);
        }
        lemma_count_false_grid_eq(g.drop_last(), g2.drop_last());
        lemma_count_false_row_set(g[m]@, j);
    } else {
        assert(g2.last()@ == g.last()@);
        assert(g2.drop_last()[i]@ == g.drop_last()[i]@.update(j, true));
        assert forall|r: int| 0 <= r < m && r != i implies (#[trigger] g2.drop_last()[r])@
            == g.drop_last()[r]@ by {
            assert(g2.drop_last()[r] == g2[r] && g.drop_last()[r] == g[r]);
        }
        lemma_count_false_grid_set(g.drop_last(), g2.drop_last(), i, j);
    }
}

/// Grids with pointwise equal rows have equal counts.
pub proof fn lemma_count_false_grid_eq(a: Seq<Vec<bool>>, b: Seq<Vec<bool>>)
    requires
        a.len() == b.len(),
        forall|r: int| 0 <= r < a.len() ==> (#[trigger] b[r])@ == a[r]@,
    ensures
        count_false_grid(a) == count_false_grid(b),
    decreases a.len(),
{
    if a.len() > 0 {
        assert forall|r: int| 0 <= r < a.len() - 1 implies (#[trigger] b.drop_last()[r])@
            == a.drop_last()[r]@ by {
            assert(b.drop_last()[r] == b[r] && a.drop_last()[r] == a[r]);
        }
        lemma_count_false_grid_eq(a.drop_last(), b.drop_last());
        assert(a.last()@ == b.last()@);
    }
}

/// Flood fill over one color region, looking for a placed marker; kept
/// from an earlier design of the color-uniqueness check, superseded by
/// `ColorSet`. Marks every cell it visits; a cell that already carries a
/// marker, or was already visited, answers `true`, a cell of another
/// color answers `false`.
#[verifier::loop_isolation(false)]
pub fn dfs_found_queen_in_same_color_grid(
    board: &Vec<Vec<CellColor>>,
    status: &Vec<Vec<Option<Status>>>,
    cur_color: CellColor,
    i: usize,
    j: usize,
    visited: &mut Vec<Vec<bool>>,
) -> (r: bool)
    requires
        board_wf(grid_of(board@), board@.len() as int),
        status@.len() == board@.len(),
        forall|t: int| 0 <= t < status@.len() ==> (#[trigger] status@[t])@.len() == board@.len(),
        visited_wf(old(visited)@, board@.len() as int),
        i <= board@.len(),
        i < board@.len() ==> j < board@.len(),
    ensures
        visited_wf(final(visited)@, board@.len() as int),
        visited_le(old(visited)@, final(visited)@),
        i == board@.len() ==> !r && final(visited)@ == old(visited)@,
        i < board@.len() && board@[i as int]@[j as int] != cur_color ==> !r && final(visited)@
            == old(visited)@,
        i < board@.len() && board@[i as int]@[j as int] == cur_color && old(
            visited,
        )@[i as int]@[j as int] ==> r && final(visited)@ == old(visited)@,
        i < board@.len() && board@[i as int]@[j as int] == cur_color && !old(
            visited,
        )@[i as int]@[j as int] && status@[i as int]@[j as int] is Some ==> r && final(visited)@
            == old(visited)@,
        (i < board@.len() && !old(visited)@[i as int]@[j as int] && r) ==> exists|a: int, b: int|
            0 <= a < board@.len() && 0 <= b < board@.len() && board@[a]@[b] == cur_color && (
            #[trigger] status@[a]@[b]) is Some,
    decreases count_false_grid(old(visited)@),
{
    let n = board.len();
    if i == n {
        return false;
    }
    proof {
        assert(grid_of(board@)[i as int].len() == n);
    }
    if board[i][j] != cur_color {
        return false;
    }
    if visited[i][j] {
        return true;
    }
    if status[i][j].is_some() {
        proof {
            let jj = j as int;
            assert(board@[i as int]@[jj] == cur_color && (#[trigger] status@[i as int]@[jj])
                is Some);
        }
        return true;
    }
    let ghost v0 = visited@;
    visited[i].set(j, true);
    proof {
        lemma_count_false_grid_set(v0, visited@, i as int, j as int);
        assert(visited_le(v0, visited@));
    }
    let ghost v1 = visited@;
    let mut found = false;
    // the eight neighbors, nearest first
    let mut neighbors: Vec<(usize, usize)> = Vec::new();
    if j > 0 {
        neighbors.push((i, j - 1));
    }
    if i > 0 {
        neighbors.push((i - 1, j));
    }
    if i + 1 < n {
        neighbors.push((i + 1, j));
    }
    if j + 1 < n {
        neighbors.push((i, j + 1));
    }
    if i > 0 && j > 0 {
        neighbors.push((i - 1, j - 1));
    }
    if i + 1 < n && j + 1 < n {
        neighbors.push((i + 1, j + 1));
    }
    if i > 0 && j + 1 < n {
        neighbors.push((i - 1, j + 1));
    }
    if i + 1 < n && j > 0 {
        neighbors.push((i + 1, j - 1));
    }
    let mut k: usize = 0;
    while k < neighbors.len()
        invariant
            n == board@.len(),
            board_wf(grid_of(board@), n as int),
            status@.len() == n,
            forall|t: int| 0 <= t < n ==> (#[trigger] status@[t])@.len() == n,
            forall|t: int|
                0 <= t < neighbors@.len() ==> (#[trigger] neighbors@[t]).0 < n && neighbors@[t].1
                    < n,
            visited_wf(visited@, n as int),
            visited_le(v0, visited@),
            visited_le(v1, visited@),
            count_false_grid(visited@) <= count_false_grid(v0) - 1,
        decreases neighbors@.len() - k,
    {
        let (ni, nj) = neighbors[k];
        if !visited[ni][nj] {
            proof {
                lemma_count_false_grid_nonneg(visited@);
                assert(count_false_grid(visited@) < count_false_grid(v0));
            }
            let ghost vpre = visited@;
            if dfs_found_queen_in_same_color_grid(board, status, cur_color, ni, nj, visited) {
                proof {
                    lemma_visited_le_trans(v0, vpre, visited@);
                    lemma_visited_le_trans(v1, vpre, visited@);
                    lemma_count_false_grid_le(vpre, visited@);
                }
                return true;
            }
            proof {
                lemma_visited_le_trans(v0, vpre, visited@);
                lemma_visited_le_trans(v1, vpre, visited@);
                lemma_count_false_grid_le(vpre, visited@);
            }
        }
        k = k + 1;
    }
    false
}

/// Flag inclusion is transitive.
pub proof fn lemma_visited_le_trans(a: Seq<Vec<bool>>, b: Seq<Vec<bool>>, c: Seq<Vec<bool>>)
    requires
        visited_le(a, b),
        visited_le(b, c),
    ensures
        visited_le(a, c),
{
}

/// Solves the board: finds one marker per row meeting the column,
/// diagonal and color constraints, returned as `(row, column)` pairs in
/// row order, or reports that no placement exists.
pub fn queens(board: &Vec<Vec<CellColor>>) -> (r: Result<Vec<(usize, usize)>, BoardError>)
    requires
        board_wf(grid_of(board@), board@.len() as int),
    ensures
        match r {
            Ok(sol) => {
                &&& sol@.len() == board@.len()
                &&& forall|i: int| 0 <= i < sol@.len() ==> (#[trigger] sol@[i]).0 == i
                &&& valid_solution(grid_of(board@), Seq::new(sol@.len(), |i: int| sol@[i].1))
            },
            Err(e) => {
                &&& e == BoardError::NoSolution
                &&& forall|cols: Seq<usize>| !valid_solution(grid_of(board@), cols)
            },
        },
{
    let ghost b = grid_of(board@);
    let n = board.len();
    let mut status: Vec<Vec<Option<Status>>> = Vec::new();
    let mut i: usize = 0;
    while i < n
        invariant
            i <= n,
            status@.len() == i,
            forall|r: int| 0 <= r < i ==> (#[trigger] status@[r])@.len() == n,
            forall|r: int, c: int|
                0 <= r < i && 0 <= c < n ==> !((#[trigger] status@[r]@[c]) is Some),
        decreases n - i,
    {
        let mut rowv: Vec<Option<Status>> = Vec::new();
        let mut j: usize = 0;
        while j < n
            invariant
                j <= n,
                rowv@.len() == j,
                forall|c: int| 0 <= c < j ==> !((#[trigger] rowv@[c]) is Some),
            decreases n - j,
        {
            rowv.push(None);
            j = j + 1;
        }
        status.push(rowv);
        i = i + 1;
    }
    let mut colors = ColorSet::new();
    let mut chosen: Vec<usize> = Vec::new();
    proof {
        assert(colors@ =~= used_colors(b, chosen@));
    }
    if !backtrack(board, &mut status, 0, n, &mut colors, &mut chosen) {
        proof {
            assert forall|cols: Seq<usize>| !valid_solution(b, cols) by {
                if valid_solution(b, cols) {
                    assert(cols.subrange(0, 0) =~= Seq::<usize>::empty());
                    assert(extends(cols, Seq::<usize>::empty()));
                    assert(!(valid_solution(b, cols) && extends(cols, Seq::<usize>::empty())));
                }
            }
        }
        return Err(BoardError::NoSolution);
    }
    let mut out: Vec<(usize, usize)> = Vec::new();
    let mut k: usize = 0;
    while k < n
        invariant
            k <= n,
            n == chosen@.len(),
            out@.len() == k,
            forall|m: int| 0 <= m < k ==> (#[trigger] out@[m]).0 == m && out@[m].1 == chosen@[m],
        decreases n - k,
    {
        let c = chosen[k];
        out.push((k, c));
        k = k + 1;
    }
    proof {
        assert(Seq::new(out@.len(), |m: int| out@[m].1) =~= chosen@);
    }
    Ok(out)
}

} // verus!

