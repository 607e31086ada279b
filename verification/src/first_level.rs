//! The first level is well-formed: every item of its map stands for a tile.

use vstd::prelude::*;
use crate::maps::{
    all_blank, is_blank, joined, lacks, lemma_joined_more, lemma_rows_read,
    lemma_split_undoes_join, lemma_trimmed, map_cells, row_cells, split, trimmed,
};
use crate::MAP;

verus! {

/// The rows of the first level as its map has them between the line breaks:
/// all but the first begin with four blanks, and one ends with a blank.
pub open spec fn first_level_lines() -> Seq<Seq<char>> {
    seq![
        "N N W W W W W W"@,
        "    "@ + "W W W . . . . W"@,
        "    "@ + "W . . . BB . . W"@,
        "    "@ + "W . . . . . . W"@ + " "@,
        "    "@ + "W . P . . RB . W"@,
        "    "@ + "W . . . . . . W"@,
        "    "@ + "W . . BS . . . W"@,
        "    "@ + "W . . . . RS . W"@,
        "    "@ + "W W W W W W W W"@,
    ]
}

/// Whether the first `n` characters of `piece` stand in `text` from the
/// place `from` on.
spec fn stands_in(text: Seq<char>, from: int, piece: Seq<char>, n: nat) -> bool
    decreases n,
{
    n == 0 || (text[from + n - 1] == piece[n - 1] && stands_in(text, from, piece, (n - 1) as nat))
}

proof fn lemma_stands_in(text: Seq<char>, from: int, piece: Seq<char>, n: nat)
    requires
        0 <= from,
        from + n <= text.len(),
        n <= piece.len(),
        stands_in(text, from, piece, n),
    ensures
        text.subrange(from, from + n) == piece.take(n as int),
    decreases n,
{
    if n > 0 {
        lemma_stands_in(text, from, piece, (n - 1) as nat);
        assert(text.subrange(from, from + n) =~= text.subrange(from, from + n - 1).push(
            text[from + n - 1],
        ));
        assert(piece.take(n as int) =~= piece.take(n - 1).push(piece[n - 1]));
    } else {
        assert(text.subrange(from, from) =~= piece.take(0));
    }
}

/// The places of the rows in the map of the first level: each row stands
/// between two line breaks, behind the five blanks that the map begins with,
/// and five blanks follow the last.
proof fn lemma_map_holds_the_lines()
    ensures
        MAP@.len() == 190,
        MAP@.subrange(0, 5) == "\n    "@,
        MAP@.subrange(5, 20) == first_level_lines()[0],
        MAP@.subrange(21, 40) == first_level_lines()[1],
        MAP@.subrange(41, 61) == first_level_lines()[2],
        MAP@.subrange(62, 82) == first_level_lines()[3],
        MAP@.subrange(83, 103) == first_level_lines()[4],
        MAP@.subrange(104, 123) == first_level_lines()[5],
        MAP@.subrange(124, 144) == first_level_lines()[6],
        MAP@.subrange(145, 165) == first_level_lines()[7],
        MAP@.subrange(166, 185) == first_level_lines()[8],
        MAP@.subrange(185, 190) == "\n    "@,
        MAP@[5] == 'N',
        MAP@[184] == 'W',
        MAP@[20] == '\n',
        MAP@[40] == '\n',
        MAP@[61] == '\n',
        MAP@[82] == '\n',
        MAP@[103] == '\n',
        MAP@[123] == '\n',
        MAP@[144] == '\n',
        MAP@[165] == '\n',
{
    reveal_strlit("
    N N W W W W W W
    W W W . . . . W
    W . . . BB . . W
    W . . . . . . W 
    W . P . . RB . W
    W . . . . . . W
    W . . BS . . . W
    W . . . . RS . W
    W W W W W W W W
    ");
    reveal_strlit("\n    ");
    reveal_strlit("    ");
    reveal_strlit(" ");
    reveal_strlit("N N W W W W W W");
    reveal_strlit("W W W . . . . W");
    reveal_strlit("W . . . BB . . W");
    reveal_strlit("W . . . . . . W");
    reveal_strlit("W . P . . RB . W");
    reveal_strlit("W . . BS . . . W");
    reveal_strlit("W . . . . RS . W");
    reveal_strlit("W W W W W W W W");
    reveal_with_fuel(stands_in, 21);
    let map = MAP@;
    let lines = first_level_lines();
    let edge = "\n    "@;
    assert(stands_in(map, 0, edge, 5));
    lemma_stands_in(map, 0, edge, 5);
    assert(edge.take(5) =~= edge);
    assert(stands_in(map, 185, edge, 5));
    lemma_stands_in(map, 185, edge, 5);
    assert(stands_in(map, 5, lines[0], 15));
    lemma_stands_in(map, 5, lines[0], 15);
    assert(lines[0].take(15) =~= lines[0]);
    assert(stands_in(map, 21, lines[1], 19));
    lemma_stands_in(map, 21, lines[1], 19);
    assert(lines[1].take(19) =~= lines[1]);
    assert(stands_in(map, 41, lines[2], 20));
    lemma_stands_in(map, 41, lines[2], 20);
    assert(lines[2].take(20) =~= lines[2]);
    assert(stands_in(map, 62, lines[3], 20));
    lemma_stands_in(map, 62, lines[3], 20);
    assert(lines[3].take(20) =~= lines[3]);
    assert(stands_in(map, 83, lines[4], 20));
    lemma_stands_in(map, 83, lines[4], 20);
    assert(lines[4].take(20) =~= lines[4]);
    assert(stands_in(map, 104, lines[5], 19));
    lemma_stands_in(map, 104, lines[5], 19);
    assert(lines[5].take(19) =~= lines[5]);
    assert(stands_in(map, 124, lines[6], 20));
    lemma_stands_in(map, 124, lines[6], 20);
    assert(lines[6].take(20) =~= lines[6]);
    assert(stands_in(map, 145, lines[7], 20));
    lemma_stands_in(map, 145, lines[7], 20);
    assert(lines[7].take(20) =~= lines[7]);
    assert(stands_in(map, 166, lines[8], 19));
    lemma_stands_in(map, 166, lines[8], 19);
    assert(lines[8].take(19) =~= lines[8]);
}

proof fn lemma_void_row_reads(row: nat)
    ensures
        row_cells(split("N N W W W W W W"@, ' '), row) is Ok,
        "N N W W W W W W"@.len() == 15,
        "N N W W W W W W"@.first() != ' ',
        "N N W W W W W W"@.last() == 'W',
{
    reveal_strlit("N N W W W W W W");
    reveal_with_fuel(split, 18);
    reveal_with_fuel(row_cells, 9);
    let items = seq![seq!['N'], seq!['N'], seq!['W'], seq!['W'], seq!['W'], seq!['W'], seq!['W'], seq!['W']];
    assert(split("N N W W W W W W"@, ' ') =~~= items);
    assert(row_cells(items, row) is Ok);
}

proof fn lemma_upper_row_reads(row: nat)
    ensures
        row_cells(split("W W W . . . . W"@, ' '), row) is Ok,
        "W W W . . . . W"@.len() == 15,
        "W W W . . . . W"@.first() != ' ',
        "W W W . . . . W"@.last() == 'W',
{
    reveal_strlit("W W W . . . . W");
    reveal_with_fuel(split, 18);
    reveal_with_fuel(row_cells, 9);
    let items = seq![seq!['W'], seq!['W'], seq!['W'], seq!['.'], seq!['.'], seq!['.'], seq!['.'], seq!['W']];
    assert(split("W W W . . . . W"@, ' ') =~~= items);
    assert(row_cells(items, row) is Ok);
}

proof fn lemma_blue_box_row_reads(row: nat)
    ensures
        row_cells(split("W . . . BB . . W"@, ' '), row) is Ok,
        "W . . . BB . . W"@.len() == 16,
        "W . . . BB . . W"@.first() != ' ',
        "W . . . BB . . W"@.last() == 'W',
{
    reveal_strlit("W . . . BB . . W");
    reveal_with_fuel(split, 18);
    reveal_with_fuel(row_cells, 9);
    let items = seq![seq!['W'], seq!['.'], seq!['.'], seq!['.'], seq!['B', 'B'], seq!['.'], seq!['.'], seq!['W']];
    assert(split("W . . . BB . . W"@, ' ') =~~= items);
    assert(row_cells(items, row) is Ok);
}

proof fn lemma_open_row_reads(row: nat)
    ensures
        row_cells(split("W . . . . . . W"@, ' '), row) is Ok,
        "W . . . . . . W"@.len() == 15,
        "W . . . . . . W"@.first() != ' ',
        "W . . . . . . W"@.last() == 'W',
{
    reveal_strlit("W . . . . . . W");
    reveal_with_fuel(split, 18);
    reveal_with_fuel(row_cells, 9);
    let items = seq![seq!['W'], seq!['.'], seq!['.'], seq!['.'], seq!['.'], seq!['.'], seq!['.'], seq!['W']];
    assert(split("W . . . . . . W"@, ' ') =~~= items);
    assert(row_cells(items, row) is Ok);
}

proof fn lemma_player_row_reads(row: nat)
    ensures
        row_cells(split("W . P . . RB . W"@, ' '), row) is Ok,
        "W . P . . RB . W"@.len() == 16,
        "W . P . . RB . W"@.first() != ' ',
        "W . P . . RB . W"@.last() == 'W',
{
    reveal_strlit("W . P . . RB . W");
    reveal_with_fuel(split, 18);
    reveal_with_fuel(row_cells, 9);
    let items = seq![seq!['W'], seq!['.'], seq!['P'], seq!['.'], seq!['.'], seq!['R', 'B'], seq!['.'], seq!['W']];
    assert(split("W . P . . RB . W"@, ' ') =~~= items);
    assert(row_cells(items, row) is Ok);
}

proof fn lemma_blue_spot_row_reads(row: nat)
    ensures
        row_cells(split("W . . BS . . . W"@, ' '), row) is Ok,
        "W . . BS . . . W"@.len() == 16,
        "W . . BS . . . W"@.first() != ' ',
        "W . . BS . . . W"@.last() == 'W',
{
    reveal_strlit("W . . BS . . . W");
    reveal_with_fuel(split, 18);
    reveal_with_fuel(row_cells, 9);
    let items = seq![seq!['W'], seq!['.'], seq!['.'], seq!['B', 'S'], seq!['.'], seq!['.'], seq!['.'], seq!['W']];
    assert(split("W . . BS . . . W"@, ' ') =~~= items);
    assert(row_cells(items, row) is Ok);
}

proof fn lemma_red_spot_row_reads(row: nat)
    ensures
        row_cells(split("W . . . . RS . W"@, ' '), row) is Ok,
        "W . . . . RS . W"@.len() == 16,
        "W . . . . RS . W"@.first() != ' ',
        "W . . . . RS . W"@.last() == 'W',
{
    reveal_strlit("W . . . . RS . W");
    reveal_with_fuel(split, 18);
    reveal_with_fuel(row_cells, 9);
    let items = seq![seq!['W'], seq!['.'], seq!['.'], seq!['.'], seq!['.'], seq!['R', 'S'], seq!['.'], seq!['W']];
    assert(split("W . . . . RS . W"@, ' ') =~~= items);
    assert(row_cells(items, row) is Ok);
}

proof fn lemma_wall_row_reads(row: nat)
    ensures
        row_cells(split("W W W W W W W W"@, ' '), row) is Ok,
        "W W W W W W W W"@.len() == 15,
        "W W W W W W W W"@.first() != ' ',
        "W W W W W W W W"@.last() == 'W',
{
    reveal_strlit("W W W W W W W W");
    reveal_with_fuel(split, 18);
    reveal_with_fuel(row_cells, 9);
    let items = seq![seq!['W'], seq!['W'], seq!['W'], seq!['W'], seq!['W'], seq!['W'], seq!['W'], seq!['W']];
    assert(split("W W W W W W W W"@, ' ') =~~= items);
    assert(row_cells(items, row) is Ok);
}

/// Each line of the first level is a row that is read in full.
proof fn lemma_lines_read()
    ensures
        forall|i: int|
            0 <= i < 9 ==> row_cells(
                split(trimmed(#[trigger] first_level_lines()[i]), ' '),
                i as nat,
            ) is Ok,
        forall|i: int| 0 <= i < 9 ==> lacks(#[trigger] first_level_lines()[i], '\n'),
{
    reveal_strlit("    ");
    reveal_strlit(" ");
    reveal_with_fuel(all_blank, 5);
    reveal_with_fuel(lacks, 21);
    let lines = first_level_lines();
    let margin = "    "@;
    let none = Seq::<char>::empty();
    assert(all_blank(margin) && all_blank(" "@) && all_blank(none));
    assert(is_blank(' '));
    assert(!is_blank('W') && !is_blank('N'));
    lemma_void_row_reads(0);
    lemma_upper_row_reads(1);
    lemma_blue_box_row_reads(2);
    lemma_open_row_reads(3);
    lemma_player_row_reads(4);
    lemma_open_row_reads(5);
    lemma_blue_spot_row_reads(6);
    lemma_red_spot_row_reads(7);
    lemma_wall_row_reads(8);
    reveal_strlit("N N W W W W W W");
    reveal_strlit("W W W . . . . W");
    reveal_strlit("W . . . BB . . W");
    reveal_strlit("W . . . . . . W");
    reveal_strlit("W . P . . RB . W");
    reveal_strlit("W . . BS . . . W");
    reveal_strlit("W . . . . RS . W");
    reveal_strlit("W W W W W W W W");
    assert(trimmed(lines[0]) == "N N W W W W W W"@) by {
        lemma_trimmed(none, "N N W W W W W W"@, none);
        assert(none + "N N W W W W W W"@ + none =~= lines[0]);
    }
    assert(trimmed(lines[1]) == "W W W . . . . W"@) by {
        lemma_trimmed(margin, "W W W . . . . W"@, none);
        assert(margin + "W W W . . . . W"@ + none =~= lines[1]);
    }
    assert(trimmed(lines[2]) == "W . . . BB . . W"@) by {
        lemma_trimmed(margin, "W . . . BB . . W"@, none);
        assert(margin + "W . . . BB . . W"@ + none =~= lines[2]);
    }
    assert(trimmed(lines[3]) == "W . . . . . . W"@) by {
        lemma_trimmed(margin, "W . . . . . . W"@, " "@);
    }
    assert(trimmed(lines[4]) == "W . P . . RB . W"@) by {
        lemma_trimmed(margin, "W . P . . RB . W"@, none);
        assert(margin + "W . P . . RB . W"@ + none =~= lines[4]);
    }
    assert(trimmed(lines[5]) == "W . . . . . . W"@) by {
        lemma_trimmed(margin, "W . . . . . . W"@, none);
        assert(margin + "W . . . . . . W"@ + none =~= lines[5]);
    }
    assert(trimmed(lines[6]) == "W . . BS . . . W"@) by {
        lemma_trimmed(margin, "W . . BS . . . W"@, none);
        assert(margin + "W . . BS . . . W"@ + none =~= lines[6]);
    }
    assert(trimmed(lines[7]) == "W . . . . RS . W"@) by {
        lemma_trimmed(margin, "W . . . . RS . W"@, none);
        assert(margin + "W . . . . RS . W"@ + none =~= lines[7]);
    }
    assert(trimmed(lines[8]) == "W W W W W W W W"@) by {
        lemma_trimmed(margin, "W W W W W W W W"@, none);
        assert(margin + "W W W W W W W W"@ + none =~= lines[8]);
    }
    assert(lacks(lines[0], '\n'));
    assert(lacks(lines[1], '\n'));
    assert(lacks(lines[2], '\n'));
    assert(lacks(lines[3], '\n'));
    assert(lacks(lines[4], '\n'));
    assert(lacks(lines[5], '\n'));
    assert(lacks(lines[6], '\n'));
    assert(lacks(lines[7], '\n'));
    assert(lacks(lines[8], '\n'));
    assert forall|i: int| 0 <= i < 9 implies row_cells(
        split(trimmed(#[trigger] first_level_lines()[i]), ' '),
        i as nat,
    ) is Ok by {
        assert(i == 0 || i == 1 || i == 2 || i == 3 || i == 4 || i == 5 || i == 6 || i == 7 || i
            == 8);
    }
    assert forall|i: int| 0 <= i < 9 implies lacks(#[trigger] first_level_lines()[i], '\n') by {
        assert(i == 0 || i == 1 || i == 2 || i == 3 || i == 4 || i == 5 || i == 6 || i == 7 || i
            == 8);
    }
}

/// The map of the first level is its lines, joined by line breaks, between
/// a line break with four blanks before and after.
proof fn lemma_map_is_the_lines_joined()
    ensures
        MAP@ == "\n    "@ + joined(first_level_lines(), '\n') + "\n    "@,
        joined(first_level_lines(), '\n').len() == 180,
        joined(first_level_lines(), '\n').first() == 'N',
        joined(first_level_lines(), '\n').last() == 'W',
{
    lemma_map_holds_the_lines();
    let map = MAP@;
    let lines = first_level_lines();
    let one = seq![lines[0]];
    assert(joined(one, '\n') == map.subrange(5, 20));
    let two = one.push(lines[1]);
    lemma_joined_more(one, lines[1], '\n');
    assert(joined(two, '\n') =~= map.subrange(5, 40));
    let three = two.push(lines[2]);
    lemma_joined_more(two, lines[2], '\n');
    assert(joined(three, '\n') =~= map.subrange(5, 61));
    let four = three.push(lines[3]);
    lemma_joined_more(three, lines[3], '\n');
    assert(joined(four, '\n') =~= map.subrange(5, 82));
    let five = four.push(lines[4]);
    lemma_joined_more(four, lines[4], '\n');
    assert(joined(five, '\n') =~= map.subrange(5, 103));
    let six = five.push(lines[5]);
    lemma_joined_more(five, lines[5], '\n');
    assert(joined(six, '\n') =~= map.subrange(5, 123));
    let seven = six.push(lines[6]);
    lemma_joined_more(six, lines[6], '\n');
    assert(joined(seven, '\n') =~= map.subrange(5, 144));
    let eight = seven.push(lines[7]);
    lemma_joined_more(seven, lines[7], '\n');
    assert(joined(eight, '\n') =~= map.subrange(5, 165));
    let nine = eight.push(lines[8]);
    lemma_joined_more(eight, lines[8], '\n');
    assert(joined(nine, '\n') =~= map.subrange(5, 185));
    assert(nine =~= lines);
    assert(map =~= map.subrange(0, 5) + map.subrange(5, 185) + map.subrange(185, 190));
}

/// The map of the first level is read in full: each of its items stands
/// for a tile.
pub proof fn lemma_first_level_reads()
    ensures
        map_cells(MAP@) is Ok,
{
    reveal_strlit("\n    ");
    reveal_with_fuel(all_blank, 6);
    let lines = first_level_lines();
    let edge = "\n    "@;
    lemma_map_is_the_lines_joined();
    assert(all_blank(edge));
    lemma_trimmed(edge, joined(lines, '\n'), edge);
    lemma_lines_read();
    lemma_split_undoes_join(lines, '\n');
    lemma_rows_read(lines);
}

} // verus!
