//! Verified text helpers for the HTML acquisition path: substring
//! search, reading an unsigned number after a marker, and assembling a
//! board from parsed cell entries. The HTML itself is handled by an
//! outside collaborator; this module works on the plain strings it
//! hands over.

use vstd::prelude::*;

use crate::game_logic::CellColor;
use crate::game_logic::color_of_label;
use crate::game_logic::grid_of;

verus! {

/// The needle `n` occurs in `h` starting at position `i`.
pub open spec fn contains_at(h: Seq<char>, n: Seq<char>, i: int) -> bool {
    &&& 0 <= i
    &&& i + n.len() <= h.len()
    &&& h.subrange(i, i + n.len()) == n
}

/// The needle `n` occurs somewhere in `h`.
pub open spec fn contains_seq(h: Seq<char>, n: Seq<char>) -> bool {
    exists|i: int| contains_at(h, n, i)
}

/// Position of the first occurrence of `n` in `h` at or after `from`;
/// one past the end when there is none.
pub open spec fn first_match_from(h: Seq<char>, n: Seq<char>, from: int) -> int
    recommends
        0 <= from,
    decreases h.len() - from + 1,
{
    if from < 0 || from + n.len() > h.len() {
        h.len() as int + 1
    } else if contains_at(h, n, from) {
        from
    } else {
        first_match_from(h, n, from + 1)
    }
}

/// The first occurrence really is the least one.
pub proof fn lemma_first_match_from(h: Seq<char>, n: Seq<char>, from: int, i: int)
    requires
        0 <= from <= i,
        contains_at(h, n, i),
        forall|k: int| from <= k < i ==> !contains_at(h, n, k),
    ensures
        first_match_from(h, n, from) == i,
    decreases i - from,
{
    if from < i {
        lemma_first_match_from(h, n, from + 1, i);
    }
}

/// Whether the needle occurs, and where first: `Some(i)` exactly when
/// the needle occurs, with `i` its first position.
pub fn find_sub(h: &str, n: &str) -> (r: Option<usize>)
    ensures
        r is Some <==> contains_seq(h@, n@),
        r matches Some(i) ==> i == first_match_from(h@, n@, 0) && contains_at(h@, n@, i as int),
{
    let hl = h.unicode_len();
    let nl = n.unicode_len();
    if nl > hl {
        proof {
            assert forall|i: int| !contains_at(h@, n@, i) by {}
        }
        return None;
    }
    if nl == 0 {
        proof {
            assert(h@.subrange(0, 0) =~= n@);
            assert(contains_at(h@, n@, 0));
            lemma_first_match_from(h@, n@, 0, 0);
        }
        return Some(0);
    }
    let mut i: usize = 0;
    while i <= hl - nl
        invariant
            0 < nl <= hl,
            hl == h@.len(),
            nl == n@.len(),
            i <= hl - nl + 1,
            forall|k: int| 0 <= k < i ==> !contains_at(h@, n@, k),
        decreases hl - nl + 1 - i,
    {
        let mut j: usize = 0;
        let mut ok: bool = true;
        while j < nl
            invariant
                nl <= hl,
                hl == h@.len(),
                nl == n@.len(),
                i + nl <= hl,
                j <= nl,
                ok ==> forall|t: int| 0 <= t < j ==> h@[i + t] == n@[t],
                !ok ==> !contains_at(h@, n@, i as int),
            decreases nl - j,
        {
            let hc = h.get_char(i + j);
            let nc = n.get_char(j);
            if hc != nc {
                proof {
                    if contains_at(h@, n@, i as int) {
                        assert(h@.subrange(i as int, i + nl)[j as int] == h@[i + j]);
                    }
                }
                ok = false;
                j = nl;
            } else {
                j = j + 1;
            }
        }
        if ok {
            proof {
                assert(h@.subrange(i as int, i + nl) =~= n@);
                assert(contains_at(h@, n@, i as int));
                lemma_first_match_from(h@, n@, 0, i as int);
            }
            return Some(i);
        }
        i = i + 1;
    }
    proof {
        assert forall|k: int| !contains_at(h@, n@, k) by {
            if 0 <= k <= hl - nl {
                assert(!contains_at(h@, n@, k));
            }
        }
    }
    None
}

/// Whether the needle occurs in the haystack.
pub fn contains_str(h: &str, n: &str) -> (r: bool)
    ensures
        r == contains_seq(h@, n@),
{
    match find_sub(h, n) {
        Some(_) => true,
        None => false,
    }
}

/// A decimal digit.
pub open spec fn is_digit(c: char) -> bool {
    48 <= c as int <= 57
}

/// Value of one digit character.
pub open spec fn digit_val(c: char) -> int {
    c as int - 48
}

/// Value of a digit string, most significant first.
pub open spec fn digits_val(s: Seq<char>) -> int
    decreases s.len(),
{
    if s.len() == 0 {
        0
    } else {
        digits_val(s.drop_last()) * 10 + digit_val(s.last())
    }
}

/// A digit string's value is nonnegative.
pub proof fn lemma_digits_val_nonneg(s: Seq<char>)
    requires
        forall|i: int| 0 <= i < s.len() ==> is_digit(#[trigger] s[i]),
    ensures
        digits_val(s) >= 0,
    decreases s.len(),
{
    if s.len() > 0 {
        lemma_digits_val_nonneg(s.drop_last());
    }
}

/// Extending a digit run never shrinks its value.
pub proof fn lemma_digits_val_monotone(s: Seq<char>, j: int, k: int, m: int)
    requires
        0 <= j <= k <= m <= s.len(),
        forall|i: int| j <= i < m ==> is_digit(#[trigger] s[i]),
    ensures
        digits_val(s.subrange(j, k)) <= digits_val(s.subrange(j, m)),
    decreases m - k,
{
    if k < m {
        let pre = s.subrange(j, m - 1);
        let cur = s.subrange(j, m);
        assert(cur.drop_last() =~= pre);
        assert(is_digit(cur.last()));
        lemma_digits_val_monotone(s, j, k, m - 1);
        assert forall|i: int| 0 <= i < pre.len() implies is_digit(#[trigger] pre[i]) by {
            assert(pre[i] == s[j + i]);
        }
        lemma_digits_val_nonneg(pre);
    }
}

/// First position at or after `i` that is not a space.
pub open spec fn skip_spaces_from(s: Seq<char>, i: int) -> int
    decreases s.len() - i + 1,
{
    if i < 0 || i >= s.len() {
        i
    } else if s[i] == ' ' {
        skip_spaces_from(s, i + 1)
    } else {
        i
    }
}

/// First position at or after `i` that is not a digit.
pub open spec fn digit_run_end(s: Seq<char>, i: int) -> int
    decreases s.len() - i + 1,
{
    if i < 0 || i >= s.len() {
        i
    } else if is_digit(s[i]) {
        digit_run_end(s, i + 1)
    } else {
        i
    }
}

pub proof fn lemma_digit_run_end_bounds(s: Seq<char>, i: int)
    requires
        0 <= i <= s.len(),
    ensures
        i <= digit_run_end(s, i) <= s.len(),
        forall|t: int| i <= t < digit_run_end(s, i) ==> is_digit(#[trigger] s[t]),
    decreases s.len() - i,
{
    if i < s.len() && is_digit(s[i]) {
        lemma_digit_run_end_bounds(s, i + 1);
    }
}

/// Whether the character at `k` is a decimal digit.
pub fn is_digit_at(s: &str, k: usize) -> (r: bool)
    requires
        k < s@.len(),
    ensures
        r == is_digit(s@[k as int]),
{
    let cv = s.get_char(k) as u32;
    48 <= cv && cv <= 57
}

/// The number written right after the first occurrence of `pat` in `s`,
/// ignoring spaces in between: `Some` exactly when `pat` occurs, at
/// least one digit follows, and the value fits a `u32`.
pub open spec fn parse_uint_after_spec(s: Seq<char>, pat: Seq<char>) -> Option<u32> {
    if !contains_seq(s, pat) {
        None
    } else {
        let i = first_match_from(s, pat, 0);
        let j = skip_spaces_from(s, i + pat.len());
        let k = digit_run_end(s, j);
        if k == j {
            None
        } else if digits_val(s.subrange(j, k)) > u32::MAX {
            None
        } else {
            Some(digits_val(s.subrange(j, k)) as u32)
        }
    }
}

/// Reads the unsigned number standing after the first occurrence of
/// `pat`, skipping spaces.
#[verifier::loop_isolation(false)]
pub fn parse_uint_after(s: &str, pat: &str) -> (r: Option<u32>)
    ensures
        r == parse_uint_after_spec(s@, pat@),
{
    let sl = s.unicode_len();
    let start = match find_sub(s, pat) {
        Some(i) => i,
        None => {
            return None;
        },
    };
    let pl = pat.unicode_len();
    let mut j: usize = start + pl;
    while j < sl && s.get_char(j) == ' '
        invariant
            sl == s@.len(),
            start + pl <= j <= sl,
            skip_spaces_from(s@, (start + pl) as int) == skip_spaces_from(s@, j as int),
        decreases sl - j,
    {
        j = j + 1;
    }
    proof {
        assert(skip_spaces_from(s@, j as int) == j as int);
    }
    let ghost jj = j as int;
    let ghost kk = digit_run_end(s@, jj);
    let mut k: usize = j;
    let mut acc: u32 = 0;
    proof {
        lemma_digit_run_end_bounds(s@, jj);
        assert(s@.subrange(jj, jj) =~= Seq::<char>::empty());
    }
    while k < sl && is_digit_at(s, k)
        invariant
            sl == s@.len(),
            jj == j as int,
            j <= k <= sl,
            kk == digit_run_end(s@, jj),
            digit_run_end(s@, k as int) == kk,
            forall|t: int| jj <= t < k ==> is_digit(#[trigger] s@[t]),
            acc as int == digits_val(s@.subrange(jj, k as int)),
        decreases sl - k,
    {
        let c = s.get_char(k);
        let d: u32 = (c as u32) - 48;
        let wide: u64 = (acc as u64) * 10 + (d as u64);
        proof {
            let pre = s@.subrange(jj, k as int);
            let cur = s@.subrange(jj, k + 1);
            assert(cur.drop_last() =~= pre);
            assert(cur.last() == s@[k as int]);
            assert(wide as int == digits_val(cur));
        }
        if wide > (u32::MAX as u64) {
            proof {
                assert(is_digit(s@[k as int]));
                assert(digit_run_end(s@, k as int) == digit_run_end(s@, k as int + 1));
                lemma_digit_run_end_bounds(s@, k as int + 1);
                lemma_digit_run_end_bounds(s@, jj);
                lemma_digits_val_monotone(s@, jj, k + 1, kk);
                assert(contains_seq(s@, pat@));
                assert(first_match_from(s@, pat@, 0) == start as int);
                assert(skip_spaces_from(s@, start as int + pat@.len()) == jj);
                assert(digit_run_end(s@, jj) == kk);
                assert(digits_val(s@.subrange(jj, kk)) > u32::MAX);
                assert(parse_uint_after_spec(s@, pat@) is None);
            }
            return None;
        }
        acc = wide as u32;
        k = k + 1;
    }
    proof {
        assert(digit_run_end(s@, k as int) == k as int);
    }
    if k == j {
        return None;
    }
    Some(acc)
}

/// The 0-based position a cell label names: the numbers after `row` and
/// `column`, both 1-based in the label.
pub open spec fn cell_position_of(s: Seq<char>) -> Option<(u32, u32)> {
    match parse_uint_after_spec(s, "row "@) {
        None => None,
        Some(rw) => match parse_uint_after_spec(s, "column "@) {
            None => None,
            Some(cl) => if rw >= 1 && cl >= 1 {
                Some((((rw - 1) as u32), ((cl - 1) as u32)))
            } else {
                None
            },
        },
    }
}

/// Reads the 0-based row and column a cell label names.
pub fn parse_cell_position(label: &str) -> (r: Option<(u32, u32)>)
    ensures
        r == cell_position_of(label@),
{
    let rw = match parse_uint_after(label, "row ") {
        Some(v) => v,
        None => {
            return None;
        },
    };
    let cl = match parse_uint_after(label, "column ") {
        Some(v) => v,
        None => {
            return None;
        },
    };
    if rw >= 1 && cl >= 1 {
        Some((rw - 1, cl - 1))
    } else {
        None
    }
}

/// Every parsed cell names a position on the board.
pub open spec fn cells_in_range(
    rows: int,
    cols: int,
    cells: Seq<(usize, usize, CellColor)>,
) -> bool {
    forall|i: int|
        0 <= i < cells.len() ==> (#[trigger] cells[i]).0 < rows && cells[i].1 < cols
}

/// The board the parsed cells describe: a default fill, overwritten by
/// each cell entry in order.
pub open spec fn board_from_cells(
    rows: int,
    cols: int,
    cells: Seq<(usize, usize, CellColor)>,
) -> Seq<Seq<CellColor>>
    decreases cells.len(),
{
    if cells.len() == 0 {
        Seq::new(rows as nat, |r: int| Seq::new(cols as nat, |c: int| CellColor::Lavender))
    } else {
        let b = board_from_cells(rows, cols, cells.drop_last());
        let e = cells.last();
        b.update(e.0 as int, b[e.0 as int].update(e.1 as int, e.2))
    }
}

/// Builds the board from parsed cell entries: `Some` exactly when every
/// entry is on the board.
pub fn build_board(rows: usize, cols: usize, cells: &Vec<(usize, usize, CellColor)>) -> (r: Option<
    Vec<Vec<CellColor>>,
>)
    ensures
        r is Some <==> cells_in_range(rows as int, cols as int, cells@),
        r matches Some(b) ==> {
            &&& b@.len() == rows
            &&& forall|rr: int| 0 <= rr < rows ==> (#[trigger] b@[rr])@.len() == cols
            &&& grid_of(b@) == board_from_cells(rows as int, cols as int, cells@)
        },
{
    let mut board: Vec<Vec<CellColor>> = Vec::new();
    let mut i: usize = 0;
    while i < rows
        invariant
            i <= rows,
            board@.len() == i,
            forall|rr: int| 0 <= rr < i ==> (#[trigger] board@[rr])@.len() == cols,
            forall|rr: int, cc: int|
                0 <= rr < i && 0 <= cc < cols ==> (#[trigger] board@[rr]@[cc])
                    == CellColor::Lavender,
        decreases rows - i,
    {
        let mut rowv: Vec<CellColor> = Vec::new();
        let mut jj: usize = 0;
        while jj < cols
            invariant
                jj <= cols,
                rowv@.len() == jj,
                forall|cc: int| 0 <= cc < jj ==> (#[trigger] rowv@[cc]) == CellColor::Lavender,
            decreases cols - jj,
        {
            rowv.push(CellColor::Lavender);
            jj = jj + 1;
        }
        board.push(rowv);
        i = i + 1;
    }
    proof {
        assert(grid_of(board@) =~~= board_from_cells(
            rows as int,
            cols as int,
            cells@.subrange(0, 0),
        ));
    }
    let mut k: usize = 0;
    while k < cells.len()
        invariant
            k <= cells@.len(),
            board@.len() == rows,
            forall|rr: int| 0 <= rr < rows ==> (#[trigger] board@[rr])@.len() == cols,
            grid_of(board@) == board_from_cells(rows as int, cols as int, cells@.subrange(0, k as int)),
            cells_in_range(rows as int, cols as int, cells@.subrange(0, k as int)),
        decreases cells@.len() - k,
    {
        let (rr, cc, color) = cells[k];
        if rr >= rows || cc >= cols {
            proof {
                assert(cells@.subrange(0, cells@.len() as int) =~= cells@);
                assert(!cells_in_range(rows as int, cols as int, cells@));
            }
            return None;
        }
        let ghost gpre = grid_of(board@);
        board[rr].set(cc, color);
        proof {
            let sub2 = cells@.subrange(0, k + 1);
            assert(sub2.drop_last() =~= cells@.subrange(0, k as int));
            assert(sub2.last() == cells@[k as int]);
            assert(grid_of(board@) =~~= board_from_cells(rows as int, cols as int, sub2));
            assert forall|i2: int| 0 <= i2 < sub2.len() implies (#[trigger] sub2[i2]).0 < rows
                && sub2[i2].1 < cols by {
                if i2 < k {
                    assert(sub2[i2] == cells@.subrange(0, k as int)[i2]);
                }
            }
        }
        k = k + 1;
    }
    proof {
        assert(cells@.subrange(0, cells@.len() as int) =~= cells@);
    }
    Some(board)
}

/// The board cell one label describes: its 0-based position and color.
pub open spec fn label_cell(s: Seq<char>) -> Option<(usize, usize, CellColor)> {
    match cell_position_of(s) {
        None => None,
        Some(pos) => match color_of_label(s) {
            None => None,
            Some(col) => Some((pos.0 as usize, pos.1 as usize, col)),
        },
    }
}

/// The cells a list of labels describes, in order.
pub open spec fn cells_of(labels: Seq<Seq<char>>) -> Seq<(usize, usize, CellColor)> {
    labels.map_values(|s: Seq<char>| label_cell(s)->0)
}

/// Builds the region-label board out of the cell labels an HTML
/// collaborator extracted: `Some` exactly when every label parses and
/// every named position is on the `rows` by `cols` board.
#[verifier::loop_isolation(false)]
pub fn parse_board_from_labels(rows: usize, cols: usize, labels: &Vec<String>) -> (r: Option<
    Vec<Vec<CellColor>>,
>)
    ensures
        r is Some <==> ((forall|i: int|
            0 <= i < labels@.len() ==> (#[trigger] label_cell(labels@[i]@)) is Some)
            && cells_in_range(rows as int, cols as int, cells_of(labels.deep_view()))),
        r matches Some(b) ==> {
            &&& b@.len() == rows
            &&& forall|rr: int| 0 <= rr < rows ==> (#[trigger] b@[rr])@.len() == cols
            &&& grid_of(b@) == board_from_cells(
                rows as int,
                cols as int,
                cells_of(labels.deep_view()),
            )
        },
{
    let mut cells: Vec<(usize, usize, CellColor)> = Vec::new();
    let mut i: usize = 0;
    while i < labels.len()
        invariant
            i <= labels@.len(),
            cells@.len() == i,
            forall|t: int| 0 <= t < i ==> (#[trigger] label_cell(labels@[t]@)) is Some,
            forall|t: int| 0 <= t < i ==> cells@[t] == label_cell(labels@[t]@)->0,
        decreases labels@.len() - i,
    {
        let label = &labels[i];
        let pos = match parse_cell_position(label.as_str()) {
            Some(p) => p,
            None => {
                proof {
                    assert(label_cell(labels@[i as int]@) is None);
                }
                return None;
            },
        };
        let color = match CellColor::from_aria_label(label.as_str()) {
            Some(c) => c,
            None => {
                proof {
                    assert(label_cell(labels@[i as int]@) is None);
                }
                return None;
            },
        };
        cells.push(((pos.0 as usize), (pos.1 as usize), color));
        i = i + 1;
    }
    proof {
        assert forall|t: int| 0 <= t < labels@.len() implies #[trigger] labels.deep_view()[t]
            == labels@[t]@ by {}
        assert(cells@ =~= cells_of(labels.deep_view()));
    }
    build_board(rows, cols, &cells)
}

} // verus!
