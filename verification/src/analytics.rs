use vstd::prelude::*;

use crate::nominos::NominoColor;

verus! {

/// The digit of a color in bag reports: its position in the list of colors, plus one.
pub open spec fn spec_color_digit(color: NominoColor) -> char {
    match color {
        NominoColor::Red => '1',
        NominoColor::Gold => '2',
        NominoColor::Blue => '3',
        NominoColor::Green => '4',
        NominoColor::Pink => '5',
        NominoColor::Orange => '6',
        NominoColor::Debug => '7',
    }
}

/// The character of a cell in bag reports: the digit of its block's color, `0` when empty.
pub open spec fn spec_cell_char(cell: Option<NominoColor>) -> char {
    match cell {
        Some(color) => spec_color_digit(color),
        None => '0',
    }
}

/// The report of a row: a character per cell, then a line break.
pub open spec fn spec_row_text(row: Seq<Option<NominoColor>>) -> Seq<char> {
    row.map_values(|cell: Option<NominoColor>| spec_cell_char(cell)).push('\n')
}

/// The report of a bag: its rows from the bottom up, one line each.
pub open spec fn spec_bag_text(rows: Seq<Vec<Option<NominoColor>>>) -> Seq<char>
    decreases rows.len(),
{
    if rows.len() == 0 {
        Seq::empty()
    } else {
        spec_bag_text(rows.drop_last()) + spec_row_text(rows.last()@)
    }
}

/// The digit of a color in bag reports.
pub fn color_digit(color: NominoColor) -> (digit: char)
    ensures
        digit == spec_color_digit(color),
{
    match color {
        NominoColor::Red => '1',
        NominoColor::Gold => '2',
        NominoColor::Blue => '3',
        NominoColor::Green => '4',
        NominoColor::Pink => '5',
        NominoColor::Orange => '6',
        NominoColor::Debug => '7',
    }
}

/// std's `String::push`: the character is added at the end.
#[verifier::external_body]
fn push_char(text: &mut String, c: char)
    ensures
        final(text)@ == old(text)@.push(c),
{
    text.push(c)
}

/// The report of a bag sent to the analytics service: one line per row from the bottom up,
/// a digit per cell (the color's position plus one, `0` for an empty cell).
pub fn bag_representation(blocks: &[Vec<Option<NominoColor>>]) -> (text: String)
    ensures
        text@ == spec_bag_text(blocks@),
{
    let mut text = String::new();
    let mut r: usize = 0;
    while r < blocks.len()
        invariant
            r <= blocks@.len(),
            text@ == spec_bag_text(blocks@.take(r as int)),
        decreases blocks@.len() - r,
    {
        let row = &blocks[r];
        let ghost before = text@;
        let mut c: usize = 0;
        while c < row.len()
            invariant
                c <= row@.len(),
                text@ == before + row@.take(c as int).map_values(
                    |cell: Option<NominoColor>| spec_cell_char(cell),
                ),
            decreases row@.len() - c,
        {
            let ch = match row[c] {
                Some(color) => color_digit(color),
                None => '0',
            };
            push_char(&mut text, ch);
            proof {
                assert(row@.take(c as int + 1).map_values(|cell: Option<NominoColor>| spec_cell_char(cell))
                    =~= row@.take(c as int).map_values(|cell: Option<NominoColor>| spec_cell_char(cell)).push(
                    ch,
                ));
            }
            c += 1;
        }
        push_char(&mut text, '\n');
        proof {
            assert(row@.take(row@.len() as int) =~= row@);
            assert(blocks@.take(r as int + 1).drop_last() =~= blocks@.take(r as int));
            assert(blocks@.take(r as int + 1).last() == blocks@[r as int]);
        }
        r += 1;
    }
    proof {
        assert(blocks@.take(blocks@.len() as int) =~= blocks@);
    }
    text
}

/// The version reported to the analytics service when the game plays with the robot.
pub const VERSION_WITH_ROBOT: u32 = 20;

/// The version reported to the analytics service when the game plays without the robot.
pub const VERSION_NO_ROBOT: u32 = 21;

/// The version of the game reported to the analytics service when it starts.
pub fn analytics_version_id(robot_enabled: bool) -> (version: u32)
    ensures
        version == if robot_enabled {
            VERSION_WITH_ROBOT
        } else {
            VERSION_NO_ROBOT
        },
{
    if robot_enabled {
        VERSION_WITH_ROBOT
    } else {
        VERSION_NO_ROBOT
    }
}

} // verus!
