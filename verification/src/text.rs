//! Textual rendering of coordinates, move lines and boards.

use vstd::prelude::*;

use crate::bit_board::BitBoard;
use crate::bits::bit64;
use crate::score::Coord;
use vstd::string::StringExecFns;

verus! {

/// The letter naming a board column.
pub open spec fn spec_col_letter(c: int) -> char {
    if c == 0 {
        'a'
    } else if c == 1 {
        'b'
    } else if c == 2 {
        'c'
    } else if c == 3 {
        'd'
    } else if c == 4 {
        'e'
    } else if c == 5 {
        'f'
    } else if c == 6 {
        'g'
    } else {
        'h'
    }
}

/// The digit naming a board row.
pub open spec fn spec_row_digit(r: int) -> char {
    if r == 0 {
        '1'
    } else if r == 1 {
        '2'
    } else if r == 2 {
        '3'
    } else if r == 3 {
        '4'
    } else if r == 4 {
        '5'
    } else if r == 5 {
        '6'
    } else if r == 6 {
        '7'
    } else {
        '8'
    }
}

/// The two characters naming an on-board coordinate.
pub open spec fn spec_coord_chars(c: Coord) -> Seq<char> {
    seq![spec_col_letter(c.col as int), spec_row_digit(c.row as int)]
}

/// Writes a coordinate in algebraic notation, column letter then row
/// digit; anything off the board is a pass.
pub fn coord_to_string(c: Coord) -> (r: String)
    ensures
        (c.row >= 8 || c.col >= 8) ==> r@ == "Pass"@,
        c.row < 8 && c.col < 8 ==> r@ == spec_coord_chars(c),
{
    let (row, col) = c.get_row_col();
    if row >= 8 || col >= 8 {
        return "Pass".to_owned();
    }
    let letter = match col {
        0 => "a",
        1 => "b",
        2 => "c",
        3 => "d",
        4 => "e",
        5 => "f",
        6 => "g",
        _ => "h",
    };
    let digit = match row {
        0 => "1",
        1 => "2",
        2 => "3",
        3 => "4",
        4 => "5",
        5 => "6",
        6 => "7",
        _ => "8",
    };
    proof {
        reveal_strlit("a");
        reveal_strlit("b");
        reveal_strlit("c");
        reveal_strlit("d");
        reveal_strlit("e");
        reveal_strlit("f");
        reveal_strlit("g");
        reveal_strlit("h");
        reveal_strlit("1");
        reveal_strlit("2");
        reveal_strlit("3");
        reveal_strlit("4");
        reveal_strlit("5");
        reveal_strlit("6");
        reveal_strlit("7");
        reveal_strlit("8");
    }
    let mut out = String::new();
    out.append(letter);
    out.append(digit);
    proof {
        assert(out@ =~= spec_coord_chars(c));
    }
    out
}

/// The rendering of a whole line of moves: nothing for an empty line,
/// else a dash followed by each move.
pub open spec fn spec_line_chars(line: Seq<Coord>, n: int) -> Seq<char>
    decreases n,
{
    if n <= 0 {
        " -"@
    } else {
        spec_line_chars(line, n - 1) + " "@ + (if line[n - 1].row >= 8 || line[n - 1].col >= 8 {
            "Pass"@
        } else {
            spec_coord_chars(line[n - 1])
        })
    }
}

/// Writes a line of moves for diagnostics: empty for an empty line,
/// else a dash followed by the moves in order.
pub fn line_to_string(line: &[Coord]) -> (r: String)
    ensures
        line@.len() == 0 ==> r@ == Seq::<char>::empty(),
        line@.len() > 0 ==> r@ == spec_line_chars(line@, line@.len() as int),
{
    if line.len() == 0 {
        return String::new();
    }
    let mut ret = " -".to_owned();
    proof {
        reveal_strlit(" -");
        reveal_strlit(" ");
        reveal_strlit("Pass");
    }
    let mut i: usize = 0;
    while i < line.len()
        invariant
            i <= line@.len(),
            ret@ == spec_line_chars(line@, i as int),
            " "@.len() == 1,
        decreases line@.len() - i,
    {
        ret.append(" ");
        let piece = coord_to_string(line[i]);
        ret.append(piece.as_str());
        i = i + 1;
    }
    ret
}

/// The character drawn on one square: the first side's discs as `X`,
/// the second side's as `O`.
pub open spec fn spec_cell_char(bl: u64, wh: u64, r: int, c: int) -> char {
    if bit64(bl, (8 * r + c) as u64) {
        'X'
    } else if bit64(wh, (8 * r + c) as u64) {
        'O'
    } else {
        ' '
    }
}

/// Draws the board as text: a header, one line per row with each
/// square as `X`, `O` or blank, a legend, and the side to move.  The
/// character of square (row, col) stands at offset
/// `38 + 19*row + 2 + 2*col`.
pub fn show_bit_board(board: BitBoard) -> (r: String)
    ensures
        r@.len() == 228,
        forall|rr: int, cc: int|
            0 <= rr < 8 && 0 <= cc < 8 ==> r@[38 + 19 * rr + 2 + 2 * cc] == spec_cell_char(
                board.0,
                board.1,
                rr,
                cc,
            ),
        r@.subrange(214, 228) == (if board.2 {
            " Black to move"@
        } else {
            " White to move"@
        }),
{
    let BitBoard(bl, wh, turn) = board;
    proof {
        reveal_strlit(" |A B C D E F G H \n");
        reveal_strlit("-+----------------\n");
        reveal_strlit("1|");
        reveal_strlit("2|");
        reveal_strlit("3|");
        reveal_strlit("4|");
        reveal_strlit("5|");
        reveal_strlit("6|");
        reveal_strlit("7|");
        reveal_strlit("8|");
        reveal_strlit("X ");
        reveal_strlit("O ");
        reveal_strlit("  ");
        reveal_strlit("\n");
        reveal_strlit("  (X: Black,  O: White)\n");
        reveal_strlit(" Black to move");
        reveal_strlit(" White to move");
    }
    let mut ret = String::new();
    ret.append(" |A B C D E F G H \n");
    ret.append("-+----------------\n");
    let mut row: usize = 0;
    while row < 8
        invariant
            row <= 8,
            ret@.len() == 38 + 19 * row,
            forall|rr: int, cc: int|
                0 <= rr < row && 0 <= cc < 8 ==> ret@[38 + 19 * rr + 2 + 2 * cc] == spec_cell_char(
                    bl,
                    wh,
                    rr,
                    cc,
                ),
        decreases 8 - row,
    {
        proof {
            reveal_strlit("1|");
            reveal_strlit("2|");
            reveal_strlit("3|");
            reveal_strlit("4|");
            reveal_strlit("5|");
            reveal_strlit("6|");
            reveal_strlit("7|");
            reveal_strlit("8|");
            reveal_strlit("X ");
            reveal_strlit("O ");
            reveal_strlit("  ");
            reveal_strlit("\n");
        }
        let label = match row {
            0 => "1|",
            1 => "2|",
            2 => "3|",
            3 => "4|",
            4 => "5|",
            5 => "6|",
            6 => "7|",
            _ => "8|",
        };
        ret.append(label);
        let mut col: usize = 0;
        while col < 8
            invariant
                row < 8,
                col <= 8,
                ret@.len() == 38 + 19 * row + 2 + 2 * col,
                forall|rr: int, cc: int|
                    0 <= rr < row && 0 <= cc < 8 ==> ret@[38 + 19 * rr + 2 + 2 * cc]
                        == spec_cell_char(bl, wh, rr, cc),
                forall|cc: int|
                    0 <= cc < col ==> ret@[38 + 19 * (row as int) + 2 + 2 * cc] == spec_cell_char(
                        bl,
                        wh,
                        row as int,
                        cc,
                    ),
                "X "@.len() == 2 && "X "@[0] == 'X' && "X "@[1] == ' ',
                "O "@.len() == 2 && "O "@[0] == 'O' && "O "@[1] == ' ',
                "  "@.len() == 2 && "  "@[0] == ' ' && "  "@[1] == ' ',
            decreases 8 - col,
        {
            let pos: u64 = (row as u64) * 8 + (col as u64);
            let mask: u64 = 1u64 << pos;
            let cell = if (bl & mask) != 0 {
                "X "
            } else if (wh & mask) != 0 {
                "O "
            } else {
                "  "
            };
            proof {
                let p = pos;
                assert((bl & (1u64 << p) != 0) == ((bl >> p) & 1 == 1) && (wh & (1u64 << p) != 0)
                    == ((wh >> p) & 1 == 1)) by (bit_vector)
                    requires
                        p < 64,
                ;
            }
            let ghost before = ret@;
            ret.append(cell);
            proof {
                assert(ret@[before.len() as int] == spec_cell_char(bl, wh, row as int, col as int));
                assert forall|rr: int, cc: int|
                    0 <= rr < row && 0 <= cc < 8 implies ret@[38 + 19 * rr + 2 + 2 * cc]
                    == spec_cell_char(bl, wh, rr, cc) by {
                    assert(ret@[38 + 19 * rr + 2 + 2 * cc] == before[38 + 19 * rr + 2 + 2 * cc]);
                }
                assert forall|cc: int|
                    0 <= cc < col + 1 implies ret@[38 + 19 * (row as int) + 2 + 2 * cc]
                    == spec_cell_char(bl, wh, row as int, cc) by {
                    if cc < col {
                        assert(ret@[38 + 19 * (row as int) + 2 + 2 * cc] == before[38 + 19 * (
                        row as int) + 2 + 2 * cc]);
                    }
                }
            }
            col = col + 1;
        }
        let ghost before_nl = ret@;
        ret.append("\n");
        proof {
            assert forall|rr: int, cc: int|
                0 <= rr < row + 1 && 0 <= cc < 8 implies ret@[38 + 19 * rr + 2 + 2 * cc]
                == spec_cell_char(bl, wh, rr, cc) by {
                assert(ret@[38 + 19 * rr + 2 + 2 * cc] == before_nl[38 + 19 * rr + 2 + 2 * cc]);
            }
        }
        row = row + 1;
    }
    let ghost before_footer = ret@;
    proof {
        reveal_strlit("  (X: Black,  O: White)\n");
        reveal_strlit(" Black to move");
        reveal_strlit(" White to move");
    }
    ret.append("  (X: Black,  O: White)\n");
    let ghost before_turn = ret@;
    if turn {
        ret.append(" Black to move");
    } else {
        ret.append(" White to move");
    }
    proof {
        assert forall|rr: int, cc: int|
            0 <= rr < 8 && 0 <= cc < 8 implies ret@[38 + 19 * rr + 2 + 2 * cc] == spec_cell_char(
            bl,
            wh,
            rr,
            cc,
        ) by {
            assert(ret@[38 + 19 * rr + 2 + 2 * cc] == before_footer[38 + 19 * rr + 2 + 2 * cc]);
        }
        if turn {
            assert(ret@.subrange(214, 228) =~= " Black to move"@);
        } else {
            assert(ret@.subrange(214, 228) =~= " White to move"@);
        }
    }
    ret
}

} // verus!
