//! An immutable rectangular grid of per-cell traversal costs.
//!
//! The grid is stored row-major: `tiles` holds `width * height` cost values,
//! each a digit between 0 and 9.  A path enters the grid at the top-left cell
//! (index 0) and aims for the bottom-right cell (the last index).  `step`
//! answers boundary-aware neighbour queries; `cost` is the price paid when
//! *entering* a cell.

use vstd::prelude::*;

verus! {

/// Why a grid could not be built, or a search could not produce a cost.
#[derive(Clone, Copy, Debug, PartialEq, Eq, Structural)]
pub enum SearchError {
    /// The rows were absent, empty, ragged, or held a non-digit character.
    MalformedGrid,
    /// No path that honours the run policy reaches the bottom-right cell.
    NoPathFound,
}

/// One of the four directions in which a path over the grid may move.
#[derive(Clone, Copy, Debug, PartialEq, Eq, Structural)]
pub enum Heading {
    North,
    South,
    East,
    West,
}

impl Heading {
    /// The heading obtained by a half turn.
    pub open spec fn opposite_spec(self) -> Heading {
        match self {
            Heading::North => Heading::South,
            Heading::South => Heading::North,
            Heading::East => Heading::West,
            Heading::West => Heading::East,
        }
    }

    pub fn opposite(self) -> (r: Heading)
        ensures
            r == self.opposite_spec(),
    {
        match self {
            Heading::North => Heading::South,
            Heading::South => Heading::North,
            Heading::East => Heading::West,
            Heading::West => Heading::East,
        }
    }

    /// The heading enumerated by `k`, used to walk all four headings in loops.
    pub open spec fn from_index_spec(k: int) -> Heading {
        if k == 0 {
            Heading::North
        } else if k == 1 {
            Heading::South
        } else if k == 2 {
            Heading::East
        } else {
            Heading::West
        }
    }

    pub fn from_index(k: usize) -> (r: Heading)
        ensures
            r == Heading::from_index_spec(k as int),
    {
        if k == 0 {
            Heading::North
        } else if k == 1 {
            Heading::South
        } else if k == 2 {
            Heading::East
        } else {
            Heading::West
        }
    }
}

/// True when `c` is an ASCII digit.
pub open spec fn is_digit_char(c: char) -> bool {
    '0' <= c <= '9'
}

/// The numeric value of an ASCII digit.
pub open spec fn digit_value(c: char) -> int {
    c as u8 - 48
}

/// True when the rows form a well-shaped grid description: at least one row,
/// all rows non-empty and of one common length, and every character a digit.
pub open spec fn rows_valid(rows: Seq<Seq<char>>) -> bool {
    &&& rows.len() >= 1
    &&& rows[0].len() >= 1
    &&& forall|i: int| 0 <= i < rows.len() ==> #[trigger] rows[i].len() == rows[0].len()
    &&& forall|i: int, j: int|
        0 <= i < rows.len() && 0 <= j < rows[i].len() ==> is_digit_char(#[trigger] rows[i][j])
}

/// The character sequences of a vector of row strings.
pub open spec fn rows_view(rows: Seq<String>) -> Seq<Seq<char>> {
    rows.map_values(|s: String| s@)
}

#[derive(Debug)]
pub struct Grid {
    /// Cost of entering each cell, row-major.
    pub tiles: Vec<u8>,
    /// Number of cells in one row.
    pub width: usize,
}

impl Grid {
    /// The grid's structural invariant: a non-empty rectangle of digit costs.
    pub open spec fn wf(self) -> bool {
        &&& self.width >= 1
        &&& self.tiles@.len() >= 1
        &&& (self.tiles@.len() as int) % (self.width as int) == 0
        &&& forall|i: int| 0 <= i < self.tiles@.len() ==> #[trigger] self.tiles@[i] <= 9
    }

    pub open spec fn len_spec(self) -> int {
        self.tiles@.len() as int
    }

    pub open spec fn height_spec(self) -> int {
        self.tiles@.len() as int / (self.width as int)
    }

    /// The bottom-right cell, where every search ends.
    pub open spec fn target_spec(self) -> int {
        self.tiles@.len() - 1
    }

    /// The cost charged on entering `pos`.
    pub open spec fn cost_spec(self, pos: int) -> int {
        self.tiles@[pos] as int
    }

    /// The neighbouring cell one step in heading `h` from `pos`, or `None`
    /// where the step would leave the grid.
    pub open spec fn step_spec(self, pos: int, h: Heading) -> Option<int> {
        let w: int = self.width as int;
        let n: int = self.tiles@.len() as int;
        match h {
            Heading::North => if pos >= w { Some(pos - w) } else { None },
            Heading::South => if pos < n - w { Some(pos + w) } else { None },
            Heading::East => if pos % w != w - 1 { Some(pos + 1) } else { None },
            Heading::West => if pos % w != 0 { Some(pos - 1) } else { None },
        }
    }

    /// Builds the grid from one string per row.  Fails with `MalformedGrid`
    /// exactly when the rows are absent, empty, of unequal lengths, or hold a
    /// character that is not an ASCII digit.
    pub fn from_rows(rows: &Vec<String>) -> (r: Result<Grid, SearchError>)
        ensures
            r is Ok <==> rows_valid(rows_view(rows@)),
            r is Err ==> r->Err_0 == SearchError::MalformedGrid,
            r is Ok ==> ({
                let g = r->Ok_0;
                let rv = rows_view(rows@);
                &&& g.wf()
                &&& g.width as int == rv[0].len()
                &&& g.tiles@.len() == rows@.len() * rv[0].len()
                &&& forall|k: int| 0 <= k < g.tiles@.len() ==>
                    #[trigger] g.tiles@[k] as int
                        == digit_value(rv[k / (g.width as int)][k % (g.width as int)])
            }),
    {
        broadcast use vstd::string::is_ascii_spec_bytes;

        if rows.len() == 0 {
            return Err(SearchError::MalformedGrid);
        }
        let mut tiles: Vec<u8> = Vec::new();
        let mut width: usize = 0;
        let n_rows: usize = rows.len();
        let mut i: usize = 0;
        while i < n_rows
            invariant
                n_rows == rows@.len(),
                i <= n_rows,
                i > 0 ==> width as int == rows_view(rows@)[0].len() && width >= 1,
                i == 0 ==> width == 0 && tiles@.len() == 0,
                tiles@.len() == i * (width as int),
                forall|i2: int| 0 <= i2 < i ==>
                    #[trigger] rows_view(rows@)[i2].len() == rows_view(rows@)[0].len(),
                forall|i2: int, j2: int|
                    0 <= i2 < i && 0 <= j2 < rows_view(rows@)[i2].len()
                        ==> is_digit_char(#[trigger] rows_view(rows@)[i2][j2]),
                forall|k: int| 0 <= k < tiles@.len() ==>
                    #[trigger] tiles@[k] as int
                        == digit_value(rows_view(rows@)[k / (width as int)][k % (width as int)]),
                forall|k: int| 0 <= k < tiles@.len() ==> #[trigger] tiles@[k] <= 9,
            decreases n_rows - i,
        {
            let s: &str = rows[i].as_str();
            if !s.is_ascii() {
                proof {
                    let rv = rows_view(rows@);
                    let j = choose|j: int|
                        0 <= j < rv[i as int].len()
                            && !('\0' <= #[trigger] rv[i as int][j] <= '\u{7f}');
                    assert(!is_digit_char(rv[i as int][j]));
                }
                return Err(SearchError::MalformedGrid);
            }
            let bytes: &[u8] = s.as_bytes();
            let row_len: usize = bytes.len();
            if i == 0 {
                if row_len == 0 {
                    return Err(SearchError::MalformedGrid);
                }
                width = row_len;
            } else if row_len != width {
                return Err(SearchError::MalformedGrid);
            }
            let mut j: usize = 0;
            while j < row_len
                invariant
                    n_rows == rows@.len(),
                    i < n_rows,
                    j <= row_len,
                    width >= 1,
                    width as int == rows_view(rows@)[0].len(),
                    row_len == width,
                    s@ == rows_view(rows@)[i as int],
                    vstd::string::is_ascii(s),
                    bytes@.len() == s@.len(),
                    row_len as int == s@.len(),
                    forall|j2: int| 0 <= j2 < s@.len() ==> #[trigger] bytes@[j2] == s@[j2] as u8,
                    forall|j2: int| 0 <= j2 < j ==> is_digit_char(#[trigger] s@[j2]),
                    tiles@.len() == i * (width as int) + j,
                    forall|k: int| 0 <= k < tiles@.len() ==>
                        #[trigger] tiles@[k] as int
                            == digit_value(rows_view(rows@)[k / (width as int)][k % (width as int)]),
                    forall|k: int| 0 <= k < tiles@.len() ==> #[trigger] tiles@[k] <= 9,
                decreases row_len - j,
            {
                let b: u8 = bytes[j];
                if b < 48 || b > 57 {
                    proof {
                        let c = s@[j as int];
                        vstd::utf8::is_ascii_chars_nat_bound(s@);
                        assert((c as nat) < 128);
                        assert(!is_digit_char(c));
                    }
                    return Err(SearchError::MalformedGrid);
                }
                proof {
                    let c = s@[j as int];
                    vstd::utf8::is_ascii_chars_nat_bound(s@);
                    assert((c as nat) < 128);
                    assert(is_digit_char(c));
                    assert((i * (width as int) + j) / (width as int) == i as int
                        && (i * (width as int) + j) % (width as int) == j as int) by {
                        vstd::arithmetic::div_mod::lemma_fundamental_div_mod_converse(
                            i * (width as int) + j, width as int, i as int, j as int);
                    }
                }
                tiles.push(b - 48);
                j = j + 1;
            }
            proof {
                assert((i + 1) * (width as int) == i * (width as int) + width)
                    by (nonlinear_arith);
            }
            i = i + 1;
        }
        proof {
            let rv = rows_view(rows@);
            assert(rv[0].len() >= 1);
            assert((i * (width as int)) % (width as int) == 0
                && (i * (width as int)) / (width as int) == i as int) by {
                vstd::arithmetic::div_mod::lemma_fundamental_div_mod_converse(
                    i * (width as int), width as int, i as int, 0);
            }
        }
        Ok(Grid { tiles, width })
    }

    pub fn len(&self) -> (r: usize)
        ensures
            r == self.len_spec(),
    {
        self.tiles.len()
    }

    pub fn cost(&self, pos: usize) -> (r: u8)
        requires
            self.wf(),
            pos < self.len_spec(),
        ensures
            r == self.cost_spec(pos as int),
            r <= 9,
    {
        self.tiles[pos]
    }

    pub fn is_target(&self, pos: usize) -> (r: bool)
        requires
            self.wf(),
        ensures
            r == (pos == self.target_spec()),
    {
        pos == self.tiles.len() - 1
    }

    pub fn step(&self, pos: usize, h: Heading) -> (r: Option<usize>)
        requires
            self.wf(),
            pos < self.len_spec(),
        ensures
            r is Some <==> self.step_spec(pos as int, h) is Some,
            r is Some ==> r->0 == self.step_spec(pos as int, h)->0 && r->0 < self.len_spec(),
    {
        proof {
            self.lemma_width_le_len();
            self.lemma_step_in_bounds(pos as int, h);
        }
        let w: usize = self.width;
        let n: usize = self.tiles.len();
        match h {
            Heading::North => if pos >= w { Some(pos - w) } else { None },
            Heading::South => if pos < n - w { Some(pos + w) } else { None },
            Heading::East => if pos % w != w - 1 { Some(pos + 1) } else { None },
            Heading::West => if pos % w != 0 { Some(pos - 1) } else { None },
        }
    }

    /// A well-formed grid has at least one full row.
    pub proof fn lemma_width_le_len(self)
        requires
            self.wf(),
        ensures
            self.width as int <= self.len_spec(),
            self.height_spec() >= 1,
    {
        let w: int = self.width as int;
        let n: int = self.tiles@.len() as int;
        if n < w {
            vstd::arithmetic::div_mod::lemma_small_mod(n as nat, w as nat);
        }
        assert(n / w >= 1) by {
            vstd::arithmetic::div_mod::lemma_fundamental_div_mod(n, w);
            if n / w <= 0 {
                assert(n == w * (n / w) + n % w);
                assert(w * (n / w) <= 0) by (nonlinear_arith)
                    requires w >= 1 && n / w <= 0;
            }
        }
    }

    /// A step that stays on the grid lands on a valid cell index.
    pub proof fn lemma_step_in_bounds(self, pos: int, h: Heading)
        requires
            self.wf(),
            0 <= pos < self.len_spec(),
        ensures
            self.step_spec(pos, h) is Some ==> {
                let q = self.step_spec(pos, h)->0;
                0 <= q < self.len_spec()
            },
    {
        let w: int = self.width as int;
        let n: int = self.tiles@.len() as int;
        let q: int = n / w;
        self.lemma_width_le_len();
        vstd::arithmetic::div_mod::lemma_fundamental_div_mod(n, w);
        if self.step_spec(pos, h) is Some {
            match h {
                Heading::North => {},
                Heading::South => {},
                Heading::East => {
                    // the bottom-right cell sits at the end of a row, so a
                    // cell allowed to step east cannot be the last cell
                    if pos == n - 1 {
                        assert((n - 1) % w == w - 1) by {
                            assert(n - 1 == (q - 1) * w + (w - 1)) by (nonlinear_arith)
                                requires n == w * q;
                            vstd::arithmetic::div_mod::lemma_fundamental_div_mod_converse_mod(
                                n - 1, w, q - 1, w - 1);
                        }
                    }
                },
                Heading::West => {
                    if pos == 0 {
                        assert(0int % w == 0) by (nonlinear_arith)
                            requires w >= 1;
                    }
                },
            }
        }
    }
}

} // verus!
