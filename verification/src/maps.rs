use vstd::prelude::*;
use crate::components::{BoxColor, Position};
use crate::entities::{
    box_at, box_spot_at, create_box, create_box_spot, create_floor, create_player, create_wall,
    floor_at, player_at, wall_at,
};
use crate::world::{extends, views, ComponentsView, World, WorldView};

verus! {

/// Whether a character is blank: the characters that Unicode calls white
/// space. Blanks at either end of a map and of each of its lines do not
/// count.
pub open spec fn is_blank(c: char) -> bool {
    let n = c as u32;
    ||| 0x09 <= n <= 0x0D
    ||| n == 0x20
    ||| n == 0x85
    ||| n == 0xA0
    ||| n == 0x1680
    ||| 0x2000 <= n <= 0x200A
    ||| n == 0x2028
    ||| n == 0x2029
    ||| n == 0x202F
    ||| n == 0x205F
    ||| n == 0x3000
}

/// Tells whether a character is blank.
pub fn is_blank_char(c: char) -> (blank: bool)
    ensures
        blank == is_blank(c),
{
    let n = c as u32;
    (0x09 <= n && n <= 0x0D) || n == 0x20 || n == 0x85 || n == 0xA0 || n == 0x1680 || (0x2000 <= n
        && n <= 0x200A) || n == 0x2028 || n == 0x2029 || n == 0x202F || n == 0x205F || n == 0x3000
}

/// The text without the blanks it begins with.
pub open spec fn trim_start(text: Seq<char>) -> Seq<char>
    decreases text.len(),
{
    if text.len() > 0 && is_blank(text.first()) {
        trim_start(text.drop_first())
    } else {
        text
    }
}

/// The text without the blanks it ends with.
pub open spec fn trim_end(text: Seq<char>) -> Seq<char>
    decreases text.len(),
{
    if text.len() > 0 && is_blank(text.last()) {
        trim_end(text.drop_last())
    } else {
        text
    }
}

/// The text without the blanks at either end.
pub open spec fn trimmed(text: Seq<char>) -> Seq<char> {
    trim_end(trim_start(text))
}

/// The pieces of the text between the separators. A text with `n`
/// separators has `n + 1` pieces, some of which may be empty.
pub open spec fn split(text: Seq<char>, separator: char) -> Seq<Seq<char>>
    decreases text.len(),
{
    if text.len() == 0 {
        seq![Seq::empty()]
    } else {
        let pieces = split(text.drop_last(), separator);
        if text.last() == separator {
            pieces.push(Seq::empty())
        } else {
            pieces.drop_last().push(pieces.last().push(text.last()))
        }
    }
}

/// Whether the separator does not occur in the text.
pub open spec fn lacks(text: Seq<char>, separator: char) -> bool
    decreases text.len(),
{
    text.len() == 0 || (text.last() != separator && lacks(text.drop_last(), separator))
}

/// Whether the text holds blanks only.
pub open spec fn all_blank(text: Seq<char>) -> bool
    decreases text.len(),
{
    text.len() == 0 || (is_blank(text.last()) && all_blank(text.drop_last()))
}

/// A split text has at least one piece.
pub proof fn lemma_split_is_not_empty(text: Seq<char>, separator: char)
    ensures
        split(text, separator).len() > 0,
    decreases text.len(),
{
    if text.len() > 0 {
        lemma_split_is_not_empty(text.drop_last(), separator);
    }
}

/// A text without a separator is one piece: itself.
pub proof fn lemma_split_whole(text: Seq<char>, separator: char)
    requires
        lacks(text, separator),
    ensures
        split(text, separator) == seq![text],
    decreases text.len(),
{
    if text.len() > 0 {
        lemma_split_whole(text.drop_last(), separator);
        assert(text.drop_last().push(text.last()) =~= text);
        assert(seq![text.drop_last()].drop_last().push(text) =~= seq![text]);
    } else {
        assert(text =~= Seq::<char>::empty());
    }
}

/// Two texts with a separator between them split into the pieces of the
/// first followed by the pieces of the second.
pub proof fn lemma_split_joined(head: Seq<char>, tail: Seq<char>, separator: char)
    ensures
        split(head + seq![separator] + tail, separator) == split(head, separator) + split(
            tail,
            separator,
        ),
    decreases tail.len(),
{
    let text = head + seq![separator] + tail;
    let first = split(head, separator);
    if tail.len() == 0 {
        assert(text.drop_last() =~= head);
        assert(split(tail, separator) =~= seq![Seq::<char>::empty()]);
        assert(first.push(Seq::<char>::empty()) =~= first + seq![Seq::<char>::empty()]);
    } else {
        let shorter = tail.drop_last();
        let rest = split(shorter, separator);
        assert(text.drop_last() =~= head + seq![separator] + shorter);
        assert(text.last() == tail.last());
        lemma_split_joined(head, shorter, separator);
        lemma_split_is_not_empty(shorter, separator);
        if tail.last() == separator {
            assert((first + rest).push(Seq::<char>::empty()) =~= first + rest.push(
                Seq::<char>::empty(),
            ));
        } else {
            assert((first + rest).drop_last() =~= first + rest.drop_last());
            assert((first + rest).last() == rest.last());
            assert((first + rest.drop_last()).push(rest.last().push(tail.last())) =~= first
                + rest.drop_last().push(rest.last().push(tail.last())));
        }
    }
}

/// The pieces put together with a separator between each two.
pub open spec fn joined(pieces: Seq<Seq<char>>, separator: char) -> Seq<char>
    decreases pieces.len(),
{
    if pieces.len() == 0 {
        Seq::empty()
    } else if pieces.len() == 1 {
        pieces[0]
    } else {
        joined(pieces.drop_last(), separator) + seq![separator] + pieces.last()
    }
}

/// Joining one piece more puts a separator and the piece at the end.
pub proof fn lemma_joined_more(pieces: Seq<Seq<char>>, piece: Seq<char>, separator: char)
    requires
        pieces.len() > 0,
    ensures
        joined(pieces.push(piece), separator) == joined(pieces, separator) + seq![separator]
            + piece,
{
    assert(pieces.push(piece).drop_last() =~= pieces);
}

/// Splitting undoes joining: pieces that hold no separator come back as
/// they were.
pub proof fn lemma_split_undoes_join(pieces: Seq<Seq<char>>, separator: char)
    requires
        pieces.len() > 0,
        forall|i: int| 0 <= i < pieces.len() ==> lacks(#[trigger] pieces[i], separator),
    ensures
        split(joined(pieces, separator), separator) == pieces,
    decreases pieces.len(),
{
    lemma_split_whole(pieces.last(), separator);
    if pieces.len() == 1 {
        assert(seq![pieces[0]] =~= pieces);
    } else {
        let front = pieces.drop_last();
        assert forall|i: int| 0 <= i < front.len() implies lacks(#[trigger] front[i], separator) by {
            assert(front[i] == pieces[i]);
        }
        lemma_split_undoes_join(front, separator);
        lemma_split_joined(joined(front, separator), pieces.last(), separator);
        assert(front + seq![pieces.last()] =~= pieces);
    }
}

/// Blanks around a text that neither begins nor ends with a blank are all
/// that trimming takes away.
pub proof fn lemma_trimmed(left: Seq<char>, core: Seq<char>, right: Seq<char>)
    requires
        all_blank(left),
        all_blank(right),
        core.len() > 0,
        !is_blank(core.first()),
        !is_blank(core.last()),
    ensures
        trimmed(left + core + right) == core,
{
    lemma_trim_start(left, core + right);
    assert(left + (core + right) =~= left + core + right);
    lemma_trim_end(core, right);
}

proof fn lemma_trim_start(left: Seq<char>, rest: Seq<char>)
    requires
        all_blank(left),
        rest.len() > 0,
        !is_blank(rest.first()),
    ensures
        trim_start(left + rest) == rest,
    decreases left.len(),
{
    if left.len() == 0 {
        assert(left + rest =~= rest);
    } else {
        lemma_all_blank_at(left, 0);
        lemma_all_blank_tail(left);
        assert((left + rest).drop_first() =~= left.drop_first() + rest);
        lemma_trim_start(left.drop_first(), rest);
    }
}

proof fn lemma_trim_end(core: Seq<char>, right: Seq<char>)
    requires
        all_blank(right),
        core.len() > 0,
        !is_blank(core.last()),
    ensures
        trim_end(core + right) == core,
    decreases right.len(),
{
    if right.len() == 0 {
        assert(core + right =~= core);
    } else {
        assert((core + right).drop_last() =~= core + right.drop_last());
        assert((core + right).last() == right.last());
        lemma_trim_end(core, right.drop_last());
    }
}

proof fn lemma_all_blank_at(text: Seq<char>, i: int)
    requires
        all_blank(text),
        0 <= i < text.len(),
    ensures
        is_blank(text[i]),
    decreases text.len(),
{
    if i < text.len() - 1 {
        lemma_all_blank_at(text.drop_last(), i);
    }
}

proof fn lemma_all_blank_tail(text: Seq<char>)
    requires
        all_blank(text),
        text.len() > 0,
    ensures
        all_blank(text.drop_first()),
    decreases text.len(),
{
    if text.len() > 1 {
        lemma_all_blank_tail(text.drop_last());
        assert(text.drop_first().drop_last() =~= text.drop_last().drop_first());
    }
}

/// The texts that the vectors hold.
pub open spec fn texts(pieces: Seq<Vec<char>>) -> Seq<Seq<char>> {
    Seq::new(pieces.len(), |i: int| pieces[i]@)
}

/// The characters of a string.
pub fn chars_of(text: &str) -> (chars: Vec<char>)
    ensures
        chars@ == text@,
{
    let n = text.unicode_len();
    let mut chars: Vec<char> = Vec::new();
    let mut i: usize = 0;
    while i < n
        invariant
            n == text@.len(),
            i <= n,
            chars@ == text@.take(i as int),
        decreases n - i,
    {
        chars.push(text.get_char(i));
        assert(text@.take(i + 1) =~= text@.take(i as int).push(text@[i as int]));
        i += 1;
    }
    assert(text@.take(n as int) =~= text@);
    chars
}

/// Copies the text without the blanks at either end.
pub fn trim(text: &Vec<char>) -> (kept: Vec<char>)
    ensures
        kept@ == trimmed(text@),
{
    let mut start: usize = 0;
    assert(text@.skip(0) =~= text@);
    while start < text.len() && is_blank_char(text[start])
        invariant
            start <= text@.len(),
            trim_start(text@) == trim_start(text@.skip(start as int)),
        decreases text@.len() - start,
    {
        assert(text@.skip(start as int).drop_first() =~= text@.skip(start + 1));
        start += 1;
    }
    let mut end: usize = text.len();
    assert(text@.subrange(start as int, end as int) =~= text@.skip(start as int));
    while end > start && is_blank_char(text[end - 1])
        invariant
            start <= end <= text@.len(),
            trimmed(text@) == trim_end(text@.subrange(start as int, end as int)),
        decreases end,
    {
        assert(text@.subrange(start as int, end as int).drop_last() =~= text@.subrange(
            start as int,
            end - 1,
        ));
        end -= 1;
    }
    let mut kept: Vec<char> = Vec::new();
    let mut i: usize = start;
    while i < end
        invariant
            start <= i <= end <= text@.len(),
            kept@ == text@.subrange(start as int, i as int),
        decreases end - i,
    {
        kept.push(text[i]);
        assert(text@.subrange(start as int, i + 1) =~= text@.subrange(start as int, i as int).push(
            text@[i as int],
        ));
        i += 1;
    }
    kept
}

/// Cuts the text at each separator.
pub fn split_at_each(text: &Vec<char>, separator: char) -> (pieces: Vec<Vec<char>>)
    ensures
        texts(pieces@) == split(text@, separator),
{
    let mut pieces: Vec<Vec<char>> = Vec::new();
    let mut piece: Vec<char> = Vec::new();
    let mut i: usize = 0;
    assert(text@.take(0) =~= Seq::<char>::empty());
    assert(texts(pieces@).push(piece@) =~= seq![Seq::<char>::empty()]);
    while i < text.len()
        invariant
            i <= text@.len(),
            texts(pieces@).push(piece@) == split(text@.take(i as int), separator),
        decreases text@.len() - i,
    {
        let ghost done = text@.take(i as int);
        let ghost more = text@.take(i + 1);
        let ghost before = texts(pieces@).push(piece@);
        assert(more.drop_last() =~= done);
        assert(more.last() == text@[i as int]);
        let c = text[i];
        if c == separator {
            let ghost full = piece@;
            pieces.push(piece);
            piece = Vec::new();
            assert(texts(pieces@).push(piece@) =~= before.push(Seq::<char>::empty()));
        } else {
            piece.push(c);
            assert(texts(pieces@).push(piece@) =~= before.drop_last().push(before.last().push(c)));
        }
        i += 1;
    }
    assert(text@.take(i as int) =~= text@);
    let ghost all = texts(pieces@).push(piece@);
    pieces.push(piece);
    assert(texts(pieces@) =~= all);
    pieces
}

/// What a cell of a map holds.
#[derive(Debug, Copy, Clone, PartialEq, Eq, Structural)]
pub enum Tile {
    /// `N`: nothing, not even floor.
    Void,
    /// `.`: floor.
    Floor,
    /// `W`: a wall, on floor.
    Wall,
    /// `P`: the player, on floor.
    Player,
    /// `BB` and `RB`: a blue or a red box, on floor.
    Box(BoxColor),
    /// `BS` and `RS`: a spot for a blue or a red box, on floor.
    BoxSpot(BoxColor),
}

/// The tile that an item of a map stands for, if it stands for one.
pub open spec fn tile_of(item: Seq<char>) -> Option<Tile> {
    if item == seq!['.'] {
        Some(Tile::Floor)
    } else if item == seq!['W'] {
        Some(Tile::Wall)
    } else if item == seq!['P'] {
        Some(Tile::Player)
    } else if item == seq!['B', 'B'] {
        Some(Tile::Box(BoxColor::Blue))
    } else if item == seq!['R', 'B'] {
        Some(Tile::Box(BoxColor::Red))
    } else if item == seq!['B', 'S'] {
        Some(Tile::BoxSpot(BoxColor::Blue))
    } else if item == seq!['R', 'S'] {
        Some(Tile::BoxSpot(BoxColor::Red))
    } else if item == seq!['N'] {
        Some(Tile::Void)
    } else {
        None
    }
}

/// Reads one item of a map.
pub fn read_tile(item: &Vec<char>) -> (tile: Option<Tile>)
    ensures
        tile == tile_of(item@),
{
    if item.len() == 1 {
        let c = item[0];
        assert(item@ =~= seq![c]);
        if c == '.' {
            Some(Tile::Floor)
        } else if c == 'W' {
            Some(Tile::Wall)
        } else if c == 'P' {
            Some(Tile::Player)
        } else if c == 'N' {
            Some(Tile::Void)
        } else {
            assert(seq!['.'][0] == '.' && seq!['W'][0] == 'W' && seq!['P'][0] == 'P' && seq!['N'][0]
                == 'N');
            None
        }
    } else if item.len() == 2 {
        let c = item[0];
        let d = item[1];
        assert(item@ =~= seq![c, d]);
        if c == 'B' && d == 'B' {
            Some(Tile::Box(BoxColor::Blue))
        } else if c == 'R' && d == 'B' {
            Some(Tile::Box(BoxColor::Red))
        } else if c == 'B' && d == 'S' {
            Some(Tile::BoxSpot(BoxColor::Blue))
        } else if c == 'R' && d == 'S' {
            Some(Tile::BoxSpot(BoxColor::Red))
        } else {
            assert(seq!['B', 'B'][0] == 'B' && seq!['B', 'B'][1] == 'B');
            assert(seq!['R', 'B'][0] == 'R' && seq!['R', 'B'][1] == 'B');
            assert(seq!['B', 'S'][0] == 'B' && seq!['B', 'S'][1] == 'S');
            assert(seq!['R', 'S'][0] == 'R' && seq!['R', 'S'][1] == 'S');
            None
        }
    } else {
        assert(seq!['.'].len() == 1 && seq!['W'].len() == 1 && seq!['P'].len() == 1 && seq!['N'].len()
            == 1);
        assert(seq!['B', 'B'].len() == 2 && seq!['R', 'B'].len() == 2 && seq!['B', 'S'].len() == 2
            && seq!['R', 'S'].len() == 2);
        None
    }
}

/// A tile and the cell of the grid it lies on.
#[derive(Debug, Copy, Clone, PartialEq, Eq, Structural)]
pub struct Cell {
    pub position: Position,
    pub tile: Tile,
}

/// The position of the item in the given column and row of a map. The
/// coordinates of the grid end at 255: a column or row past that starts again
/// at 0.
pub open spec fn position_of(column: nat, row: nat) -> Position {
    Position { x: (column % 256) as u8, y: (row % 256) as u8, z: 0 }
}

/// The cells of one row of a map, or the first item of the row that stands
/// for no tile.
pub open spec fn row_cells(items: Seq<Seq<char>>, row: nat) -> Result<Seq<Cell>, Seq<char>>
    decreases items.len(),
{
    if items.len() == 0 {
        Ok(Seq::empty())
    } else {
        match row_cells(items.drop_last(), row) {
            Ok(cells) => match tile_of(items.last()) {
                Some(tile) => Ok(
                    cells.push(Cell { position: position_of((items.len() - 1) as nat, row), tile }),
                ),
                None => Err(items.last()),
            },
            Err(item) => Err(item),
        }
    }
}

/// The cells of the rows of a map, row by row, or the first item that stands
/// for no tile. In a row, blanks at either end do not count, and the items
/// stand between single spaces.
pub open spec fn rows_cells(lines: Seq<Seq<char>>) -> Result<Seq<Cell>, Seq<char>>
    decreases lines.len(),
{
    if lines.len() == 0 {
        Ok(Seq::empty())
    } else {
        match rows_cells(lines.drop_last()) {
            Ok(cells) => match row_cells(
                split(trimmed(lines.last()), ' '),
                (lines.len() - 1) as nat,
            ) {
                Ok(row) => Ok(cells + row),
                Err(item) => Err(item),
            },
            Err(item) => Err(item),
        }
    }
}

/// The cells that a map describes, or the first item in it that stands for
/// no tile. Blanks at either end of the map do not count, and each line is a
/// row.
pub open spec fn map_cells(map: Seq<char>) -> Result<Seq<Cell>, Seq<char>> {
    rows_cells(split(trimmed(map), '\n'))
}

/// A map holds an item that stands for no tile.
#[derive(Debug, PartialEq, Eq)]
pub struct MapError {
    pub item: Vec<char>,
}

/// Whether `parsed` is what the map describes.
pub open spec fn reads(parsed: Result<Vec<Cell>, MapError>, map: Seq<char>) -> bool {
    match map_cells(map) {
        Ok(cells) => parsed matches Ok(found) && found@ == cells,
        Err(item) => parsed matches Err(error) && error.item@ == item,
    }
}

/// Reads the cells of one row into `cells`.
fn parse_row(line: &Vec<char>, row: usize, cells: &mut Vec<Cell>) -> (done: Result<(), MapError>)
    ensures
        match row_cells(split(trimmed(line@), ' '), row as nat) {
            Ok(found) => done is Ok && final(cells)@ == old(cells)@ + found,
            Err(item) => done matches Err(error) && error.item@ == item,
        },
{
    let items = split_at_each(&trim(line), ' ');
    let ghost all = texts(items@);
    let ghost before = cells@;
    let mut column: usize = 0;
    assert(all.take(0) =~= Seq::<Seq<char>>::empty());
    assert(before + Seq::<Cell>::empty() =~= before);
    while column < items.len()
        invariant
            all == texts(items@),
            all == split(trimmed(line@), ' '),
            before == old(cells)@,
            column <= items@.len(),
            row_cells(all.take(column as int), row as nat) matches Ok(found) && cells@ == before
                + found,
        decreases items@.len() - column,
    {
        let ghost done = all.take(column as int);
        let ghost more = all.take(column + 1);
        assert(more.drop_last() =~= done);
        assert(more.last() == items@[column as int]@);
        let ghost found = row_cells(done, row as nat)->Ok_0;
        match read_tile(&items[column]) {
            Some(tile) => {
                let position = Position { x: (column % 256) as u8, y: (row % 256) as u8, z: 0 };
                cells.push(Cell { position, tile });
                assert(cells@ =~= before + found.push(Cell { position, tile }));
            },
            None => {
                proof {
                    lemma_row_error_stays(all, column + 1, row as nat);
                }
                let item = items[column].clone();
                assert(item@ =~= items@[column as int]@);
                return Err(MapError { item });
            },
        }
        column += 1;
    }
    assert(all.take(column as int) =~= all);
    Ok(())
}

/// An item that stands for no tile among the first `n` of a row is still the
/// first such item of the whole row.
proof fn lemma_row_error_stays(items: Seq<Seq<char>>, n: int, row: nat)
    requires
        0 <= n <= items.len(),
        row_cells(items.take(n), row) is Err,
    ensures
        row_cells(items, row) == row_cells(items.take(n), row),
    decreases items.len() - n,
{
    if n < items.len() {
        let more = items.take(n + 1);
        assert(more.drop_last() =~= items.take(n));
        lemma_row_error_stays(items, n + 1, row);
    } else {
        assert(items.take(n) =~= items);
    }
}

proof fn lemma_rows_error_stays(lines: Seq<Seq<char>>, n: int)
    requires
        0 <= n <= lines.len(),
        rows_cells(lines.take(n)) is Err,
    ensures
        rows_cells(lines) == rows_cells(lines.take(n)),
    decreases lines.len() - n,
{
    if n < lines.len() {
        let more = lines.take(n + 1);
        assert(more.drop_last() =~= lines.take(n));
        lemma_rows_error_stays(lines, n + 1);
    } else {
        assert(lines.take(n) =~= lines);
    }
}

/// Reads a map: its cells row by row, or the first item that stands for no
/// tile.
pub fn parse_map(map: &str) -> (parsed: Result<Vec<Cell>, MapError>)
    ensures
        reads(parsed, map@),
{
    let lines = split_at_each(&trim(&chars_of(map)), '\n');
    let ghost all = texts(lines@);
    let mut cells: Vec<Cell> = Vec::new();
    let mut row: usize = 0;
    assert(all.take(0) =~= Seq::<Seq<char>>::empty());
    while row < lines.len()
        invariant
            all == texts(lines@),
            all == split(trimmed(map@), '\n'),
            row <= lines@.len(),
            rows_cells(all.take(row as int)) == Ok::<Seq<Cell>, Seq<char>>(cells@),
        decreases lines@.len() - row,
    {
        let ghost done = all.take(row as int);
        let ghost more = all.take(row + 1);
        let ghost before = cells@;
        assert(more.drop_last() =~= done);
        assert(more.last() == lines@[row as int]@);
        match parse_row(&lines[row], row, &mut cells) {
            Ok(()) => {},
            Err(error) => {
                proof {
                    lemma_rows_error_stays(all, row + 1);
                }
                return Err(error);
            },
        }
        row += 1;
    }
    assert(all.take(row as int) =~= all);
    Ok(cells)
}

/// A row is read in full where each of its items stands for a tile.
pub proof fn lemma_row_reads(items: Seq<Seq<char>>, row: nat)
    requires
        forall|k: int| 0 <= k < items.len() ==> tile_of(#[trigger] items[k]) is Some,
    ensures
        row_cells(items, row) is Ok,
        row_cells(items, row)->Ok_0.len() == items.len(),
    decreases items.len(),
{
    if items.len() > 0 {
        lemma_row_reads(items.drop_last(), row);
        assert(tile_of(items[items.len() - 1]) is Some);
    }
}

/// The rows of a map are read in full where each row is.
pub proof fn lemma_rows_read(lines: Seq<Seq<char>>)
    requires
        forall|i: int|
            0 <= i < lines.len() ==> row_cells(
                split(trimmed(#[trigger] lines[i]), ' '),
                i as nat,
            ) is Ok,
    ensures
        rows_cells(lines) is Ok,
    decreases lines.len(),
{
    if lines.len() > 0 {
        lemma_rows_read(lines.drop_last());
        assert(lines.last() == lines[lines.len() - 1]);
    }
}

/// The entities that stand for one cell of a map: floor under everything but
/// the void.
pub open spec fn spawned(cell: Cell) -> Seq<ComponentsView> {
    match cell.tile {
        Tile::Void => Seq::empty(),
        Tile::Floor => seq![floor_at(cell.position)],
        Tile::Wall => seq![floor_at(cell.position), wall_at(cell.position)],
        Tile::Player => seq![floor_at(cell.position), player_at(cell.position)],
        Tile::Box(color) => seq![floor_at(cell.position), box_at(cell.position, color)],
        Tile::BoxSpot(color) => seq![floor_at(cell.position), box_spot_at(cell.position, color)],
    }
}

/// The entities that stand for the cells of a map, in the order of the cells.
pub open spec fn level(cells: Seq<Cell>) -> Seq<ComponentsView>
    decreases cells.len(),
{
    if cells.len() == 0 {
        Seq::empty()
    } else {
        level(cells.drop_last()) + spawned(cells.last())
    }
}

/// Extending a world twice extends it by both additions.
pub proof fn lemma_extends_twice(
    first: WorldView,
    second: WorldView,
    third: WorldView,
    early: Seq<ComponentsView>,
    late: Seq<ComponentsView>,
)
    requires
        extends(first, second, early),
        extends(second, third, late),
    ensures
        extends(first, third, early + late),
{
    let a = first.entities.len() as int;
    let b = second.entities.len() as int;
    assert(third.entities.take(a) =~= third.entities.take(b).take(a));
    assert(views(third.entities.skip(a)) =~= early + late) by {
        assert forall|i: int| 0 <= i < early.len() + late.len() implies views(
            third.entities.skip(a),
        )[i] == (early + late)[i] by {
            if i < early.len() {
                assert(third.entities.take(b)[a + i] == second.entities[a + i]);
                assert(views(second.entities.skip(a))[i] == early[i]);
            } else {
                assert(views(third.entities.skip(b))[i - early.len()] == late[i - early.len()]);
            }
        }
    }
}

/// Adds the entities of one cell to the world.
fn spawn_cell(world: &mut World, cell: Cell)
    ensures
        extends(old(world)@, final(world)@, spawned(cell)),
{
    let ghost before = world@;
    match cell.tile {
        Tile::Void => {
            assert(world@.entities.take(before.entities.len() as int) =~= before.entities);
            assert(views(world@.entities.skip(before.entities.len() as int)) =~= spawned(cell));
        },
        Tile::Floor => {
            create_floor(world, cell.position);
        },
        Tile::Wall => {
            create_floor(world, cell.position);
            let ghost middle = world@;
            create_wall(world, cell.position);
            proof {
                lemma_extends_twice(
                    before,
                    middle,
                    world@,
                    seq![floor_at(cell.position)],
                    seq![wall_at(cell.position)],
                );
                assert(seq![floor_at(cell.position)] + seq![wall_at(cell.position)] =~= spawned(
                    cell,
                ));
            }
        },
        Tile::Player => {
            create_floor(world, cell.position);
            let ghost middle = world@;
            create_player(world, cell.position);
            proof {
                lemma_extends_twice(
                    before,
                    middle,
                    world@,
                    seq![floor_at(cell.position)],
                    seq![player_at(cell.position)],
                );
                assert(seq![floor_at(cell.position)] + seq![player_at(cell.position)] =~= spawned(
                    cell,
                ));
            }
        },
        Tile::Box(color) => {
            create_floor(world, cell.position);
            let ghost middle = world@;
            create_box(world, cell.position, color);
            proof {
                lemma_extends_twice(
                    before,
                    middle,
                    world@,
                    seq![floor_at(cell.position)],
                    seq![box_at(cell.position, color)],
                );
                assert(seq![floor_at(cell.position)] + seq![box_at(cell.position, color)]
                    =~= spawned(cell));
            }
        },
        Tile::BoxSpot(color) => {
            create_floor(world, cell.position);
            let ghost middle = world@;
            create_box_spot(world, cell.position, color);
            proof {
                lemma_extends_twice(
                    before,
                    middle,
                    world@,
                    seq![floor_at(cell.position)],
                    seq![box_spot_at(cell.position, color)],
                );
                assert(seq![floor_at(cell.position)] + seq![box_spot_at(cell.position, color)]
                    =~= spawned(cell));
            }
        },
    }
}

/// Adds the entities of the given cells to the world, cell by cell.
pub fn build_level(world: &mut World, cells: &Vec<Cell>)
    ensures
        extends(old(world)@, final(world)@, level(cells@)),
{
    let ghost before = world@;
    let mut i: usize = 0;
    assert(cells@.take(0) =~= Seq::<Cell>::empty());
    assert(world@.entities.take(before.entities.len() as int) =~= before.entities);
    assert(views(world@.entities.skip(before.entities.len() as int)) =~= Seq::<ComponentsView>::empty());
    while i < cells.len()
        invariant
            i <= cells@.len(),
            extends(before, world@, level(cells@.take(i as int))),
        decreases cells@.len() - i,
    {
        let ghost middle = world@;
        let ghost done = cells@.take(i as int);
        let ghost more = cells@.take(i + 1);
        assert(more.drop_last() =~= done);
        assert(more.last() == cells@[i as int]);
        spawn_cell(world, cells[i]);
        proof {
            lemma_extends_twice(before, middle, world@, level(done), spawned(cells@[i as int]));
        }
        i += 1;
    }
    assert(cells@.take(i as int) =~= cells@);
}

/// Whether `loaded` and the world after it are what loading the map into the
/// world `before` yields: the entities of the map's cells are added, or,
/// where an item of the map stands for no tile, the item is reported and the
/// world is as it was.
pub open spec fn loads(
    loaded: Result<(), MapError>,
    before: WorldView,
    after: WorldView,
    map: Seq<char>,
) -> bool {
    match map_cells(map) {
        Ok(cells) => loaded is Ok && extends(before, after, level(cells)),
        Err(item) => loaded matches Err(error) && error.item@ == item && after == before,
    }
}

fn load_map(world: &mut World, map: String) -> (loaded: Result<(), MapError>)
    ensures
        loads(loaded, old(world)@, final(world)@, map@),
{
    match parse_map(map.as_str()) {
        Ok(cells) => {
            build_level(world, &cells);
            Ok(())
        },
        Err(error) => Err(error),
    }
}

/// Fills the world with the entities of a level, given as a map: one row to
/// a line, the items of a row between single spaces.
pub fn initialize_level(world: &mut World, map_string: &str) -> (loaded: Result<(), MapError>)
    ensures
        loads(loaded, old(world)@, final(world)@, map_string@),
{
    load_map(world, map_string.to_owned())
}

} // verus!
