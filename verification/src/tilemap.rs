//! The text format of a tilemap.
//!
//! A map is plain text with one line to the row. A line ends at a line feed;
//! a carriage return directly before that line feed belongs to the line
//! ending too. Within a row, `g`, `d` and `s` name a tile, a space leaves the
//! cell empty, and no other character is allowed. Columns count characters,
//! not bytes. Rows may differ in length.

use crate::tile::TileType;
use vstd::prelude::*;

verus! {

/// Row of the character at index `k`: the number of line feeds before it.
pub open spec fn row_of(text: Seq<char>, k: int) -> int
    decreases k,
{
    if k <= 0 {
        0
    } else if text[k - 1] == '\n' {
        row_of(text, k - 1) + 1
    } else {
        row_of(text, k - 1)
    }
}

/// Index at which the line of the character at index `k` begins: just after
/// the last line feed before `k`, or 0.
pub open spec fn line_start(text: Seq<char>, k: int) -> int
    decreases k,
{
    if k <= 0 {
        0
    } else if text[k - 1] == '\n' {
        k
    } else {
        line_start(text, k - 1)
    }
}

/// Column of the character at index `k`: its distance from the beginning of
/// its line.
pub open spec fn column_of(text: Seq<char>, k: int) -> int {
    k - line_start(text, k)
}

/// Whether the character at index `k` is part of a line ending: a line feed,
/// or a carriage return directly before a line feed.
pub open spec fn ends_line(text: Seq<char>, k: int) -> bool {
    text[k] == '\n' || (text[k] == '\r' && k + 1 < text.len() && text[k + 1] == '\n')
}

/// Whether `k` is the index of a character of a row.
pub open spec fn in_row(text: Seq<char>, k: int) -> bool {
    0 <= k < text.len() && !ends_line(text, k)
}

/// Whether `k` is the index of the character at column `x` of row `y`.
pub open spec fn is_at(text: Seq<char>, k: int, x: int, y: int) -> bool {
    in_row(text, k) && column_of(text, k) == x && row_of(text, k) == y
}

/// The character at column `x` of row `y`; `None` if the text has no such
/// row, or the row is too short.
pub open spec fn char_at(text: Seq<char>, x: int, y: int) -> Option<char> {
    if exists|k: int| is_at(text, k, x, y) {
        Some(text[choose|k: int| is_at(text, k, x, y)])
    } else {
        None
    }
}

/// The tile that the text puts into the cell of column `x` and row `y`, if
/// it puts one there.
pub open spec fn tile_in_text(text: Seq<char>, x: int, y: int) -> Option<TileType> {
    match char_at(text, x, y) {
        Some(c) => TileType::spec_from_char(c),
        None => None,
    }
}

/// The tiles that the text describes, by cell.
pub open spec fn tiles_of_text(text: Seq<char>) -> Map<(int, int), TileType> {
    Map::new(
        |cell: (int, int)| tile_in_text(text, cell.0, cell.1) is Some,
        |cell: (int, int)| tile_in_text(text, cell.0, cell.1)->0,
    )
}

/// Whether `k` is the index of a character of a row that is neither a space
/// nor the name of a tile.
pub open spec fn is_unknown(text: Seq<char>, k: int) -> bool {
    in_row(text, k) && text[k] != ' ' && TileType::spec_from_char(text[k]) is None
}

/// Whether the text is a map: every character of every row is a space or
/// names a tile.
pub open spec fn is_map(text: Seq<char>) -> bool {
    forall|k: int| !is_unknown(text, k)
}

/// Whether `k` is the index of the first character that keeps the text from
/// being a map.
pub open spec fn is_first_unknown(text: Seq<char>, k: int) -> bool {
    is_unknown(text, k) && forall|j: int| 0 <= j < k ==> !is_unknown(text, j)
}

/// Whether every tile of the text has a cell: a column and a row in the
/// range of an `i32`.
pub open spec fn fits(text: Seq<char>) -> bool {
    forall|k: int|
        0 <= k < text.len() && (#[trigger] TileType::spec_from_char(text[k])) is Some
            ==> column_of(text, k) <= i32::MAX && row_of(text, k) <= i32::MAX
}

/// Why a text is not a map: it holds a character that is neither a space nor
/// the name of a tile. The error describes the first such character.
#[derive(Debug, Copy, Clone, PartialEq, Eq, Structural)]
pub struct MapParseError {
    /// The character.
    pub character: char,
    /// Its index in the text, counted in characters.
    pub index: usize,
    /// Its column, counted from 0.
    pub column: usize,
    /// Its row, counted from 0.
    pub row: usize,
}

impl MapParseError {
    /// Whether the error describes the first character that keeps `text`
    /// from being a map.
    pub open spec fn describes(self, text: Seq<char>) -> bool {
        &&& is_first_unknown(text, self.index as int)
        &&& self.character == text[self.index as int]
        &&& self.column == column_of(text, self.index as int)
        &&& self.row == row_of(text, self.index as int)
    }
}

/// The tiles that the first `k` characters of the text name, by cell.
pub(crate) open spec fn tiles_before(text: Seq<char>, k: int) -> Map<(int, int), TileType>
    decreases k,
{
    if k <= 0 {
        Map::empty()
    } else {
        match TileType::spec_from_char(text[k - 1]) {
            Some(tile) => tiles_before(text, k - 1).insert(
                (column_of(text, k - 1), row_of(text, k - 1)),
                tile,
            ),
            None => tiles_before(text, k - 1),
        }
    }
}

/// Rows and columns are never negative, and neither exceeds the index.
pub proof fn lemma_cell_bounds(text: Seq<char>, k: int)
    requires
        0 <= k,
    ensures
        0 <= row_of(text, k) <= k,
        0 <= line_start(text, k) <= k,
        0 <= column_of(text, k) <= k,
    decreases k,
{
    if k > 0 {
        lemma_cell_bounds(text, k - 1);
    }
}

/// A text of at most `i32::MAX` characters has a cell for each of its tiles.
pub proof fn lemma_short_text_fits(text: Seq<char>)
    requires
        text.len() <= i32::MAX,
    ensures
        fits(text),
{
    assert forall|k: int|
        0 <= k < text.len() && (#[trigger] TileType::spec_from_char(text[k])) is Some implies column_of(
        text,
        k,
    ) <= i32::MAX && row_of(text, k) <= i32::MAX by {
        lemma_cell_bounds(text, k);
    }
}

/// A later character stands in the same row or in a later one; in the same
/// row, both lines begin at the same index.
proof fn lemma_rows_ascend(text: Seq<char>, j: int, k: int)
    requires
        0 <= j <= k,
    ensures
        row_of(text, j) <= row_of(text, k),
        row_of(text, j) == row_of(text, k) ==> line_start(text, j) == line_start(text, k),
    decreases k - j,
{
    if j < k {
        lemma_rows_ascend(text, j, k - 1);
    }
}

/// No two characters share a cell.
pub proof fn lemma_cells_differ(text: Seq<char>, j: int, k: int)
    requires
        0 <= j,
        0 <= k,
        j != k,
    ensures
        (column_of(text, j), row_of(text, j)) != (column_of(text, k), row_of(text, k)),
{
    if j < k {
        lemma_rows_ascend(text, j, k);
    } else {
        lemma_rows_ascend(text, k, j);
    }
}

/// The character of a row is the character at its column and row.
pub proof fn lemma_char_at(text: Seq<char>, k: int)
    requires
        in_row(text, k),
    ensures
        char_at(text, column_of(text, k), row_of(text, k)) == Some(text[k]),
        tile_in_text(text, column_of(text, k), row_of(text, k)) == TileType::spec_from_char(
            text[k],
        ),
{
    let x = column_of(text, k);
    let y = row_of(text, k);
    assert(is_at(text, k, x, y));
    let chosen = choose|j: int| is_at(text, j, x, y);
    if chosen != k {
        lemma_cells_differ(text, chosen, k);
    }
}

/// What `tiles_before` holds: the tile of each of the first `k` characters
/// that names one, in that character's cell, and nothing else.
proof fn lemma_tiles_before(text: Seq<char>, k: int)
    requires
        0 <= k,
    ensures
        forall|j: int|
            0 <= j < k && (#[trigger] TileType::spec_from_char(text[j])) is Some ==> {
                let cell = (column_of(text, j), row_of(text, j));
                tiles_before(text, k).contains_key(cell) && tiles_before(text, k)[cell]
                    == TileType::spec_from_char(text[j])->0
            },
        forall|cell: (int, int)| #[trigger]
            tiles_before(text, k).contains_key(cell) ==> exists|j: int|
                0 <= j < k && TileType::spec_from_char(text[j]) is Some && cell == (
                    column_of(text, j),
                    #[trigger] row_of(text, j),
                ),
    decreases k,
{
    if k > 0 {
        lemma_tiles_before(text, k - 1);
        assert forall|j: int|
            0 <= j < k && (#[trigger] TileType::spec_from_char(text[j])) is Some implies {
            let cell = (column_of(text, j), row_of(text, j));
            tiles_before(text, k).contains_key(cell) && tiles_before(text, k)[cell]
                == TileType::spec_from_char(text[j])->0
        } by {
            if j < k - 1 {
                lemma_cells_differ(text, j, k - 1);
            }
        }
        assert forall|cell: (int, int)| #[trigger]
            tiles_before(text, k).contains_key(cell) implies exists|j: int|
            0 <= j < k && TileType::spec_from_char(text[j]) is Some && cell == (
                column_of(text, j),
                #[trigger] row_of(text, j),
            ) by {
            if tiles_before(text, k - 1).contains_key(cell) {
                let j = choose|j: int|
                    0 <= j < k - 1 && TileType::spec_from_char(text[j]) is Some && cell == (
                        column_of(text, j),
                        #[trigger] row_of(text, j),
                    );
                assert(0 <= j < k && row_of(text, j) == cell.1);
            } else {
                assert(cell == (column_of(text, k - 1), row_of(text, k - 1)));
            }
        }
    }
}

/// Read to its end, the text has named exactly the tiles that it describes.
pub(crate) proof fn lemma_tiles_before_end(text: Seq<char>)
    ensures
        tiles_before(text, text.len() as int) =~= tiles_of_text(text),
{
    let n = text.len() as int;
    let read = tiles_before(text, n);
    lemma_tiles_before(text, n);
    assert forall|cell: (int, int)| read.contains_key(cell) implies tiles_of_text(
        text,
    ).contains_key(cell) && tiles_of_text(text)[cell] == read[cell] by {
        let j = choose|j: int|
            0 <= j < n && TileType::spec_from_char(text[j]) is Some && cell == (
                column_of(text, j),
                #[trigger] row_of(text, j),
            );
        assert(is_at(text, j, cell.0, cell.1));
        let c = choose|k: int| is_at(text, k, cell.0, cell.1);
        if c != j {
            lemma_cells_differ(text, c, j);
        }
    }
    assert forall|cell: (int, int)| tiles_of_text(text).contains_key(cell) implies read.contains_key(
        cell,
    ) by {
        let c = choose|k: int| is_at(text, k, cell.0, cell.1);
        assert(TileType::spec_from_char(text[c]) is Some);
    }
}

} // verus!
