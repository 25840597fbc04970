//! Grain counts as pixels: four bytes each, red, green, blue and alpha.

use vstd::prelude::*;

verus! {

/// The colour of a cell: black for an empty one, blue, green and red for one,
/// two and three grains, and nothing at all for a cell that has yet to
/// topple.
pub open spec fn pixel(v: usize) -> Seq<u8> {
    if v == 0 {
        seq![0u8, 0u8, 0u8, 255u8]
    } else if v == 1 {
        seq![0u8, 0u8, 255u8, 255u8]
    } else if v == 2 {
        seq![0u8, 255u8, 0u8, 255u8]
    } else if v == 3 {
        seq![255u8, 0u8, 0u8, 255u8]
    } else {
        seq![0u8, 0u8, 0u8, 0u8]
    }
}

/// The colour in which a cell is shown on a console.
#[derive(Debug, Clone, Copy, PartialEq, Eq)]
pub enum Shade {
    Black,
    Blue,
    Green,
    Red,
    Purple,
}

/// The shade of a cell: black for an empty one, blue, green and red for one,
/// two and three grains, purple for a cell that has yet to topple.
pub fn shade_of(value: usize) -> (shade: Shade)
    ensures
        shade == (if value == 0 {
            Shade::Black
        } else if value == 1 {
            Shade::Blue
        } else if value == 2 {
            Shade::Green
        } else if value == 3 {
            Shade::Red
        } else {
            Shade::Purple
        }),
{
    match value {
        0 => Shade::Black,
        1 => Shade::Blue,
        2 => Shade::Green,
        3 => Shade::Red,
        _ => Shade::Purple,
    }
}

/// The pixels of a run of cells, one after the other.
pub open spec fn pixels(data: Seq<usize>) -> Seq<u8>
    decreases data.len(),
{
    if data.len() == 0 {
        Seq::empty()
    } else {
        pixels(data.drop_last()) + pixel(data.last())
    }
}

/// Appends the pixels of `input_data` to `output_data`.
pub fn raw_data_to_rgba(input_data: &[usize], output_data: &mut Vec<u8>)
    ensures
        final(output_data)@ == old(output_data)@ + pixels(input_data@),
{
    let mut i: usize = 0;
    assert(old(output_data)@ + pixels(input_data@.subrange(0, 0)) =~= old(output_data)@);
    while i < input_data.len()
        invariant
            0 <= i <= input_data@.len(),
            output_data@ == old(output_data)@ + pixels(input_data@.subrange(0, i as int)),
        decreases input_data@.len() - i,
    {
        let ghost so_far = output_data@;
        let v = input_data[i];
        if v == 0 {
            output_data.push(0);
            output_data.push(0);
            output_data.push(0);
            output_data.push(255);
        } else if v == 1 {
            output_data.push(0);
            output_data.push(0);
            output_data.push(255);
            output_data.push(255);
        } else if v == 2 {
            output_data.push(0);
            output_data.push(255);
            output_data.push(0);
            output_data.push(255);
        } else if v == 3 {
            output_data.push(255);
            output_data.push(0);
            output_data.push(0);
            output_data.push(255);
        } else {
            output_data.push(0);
            output_data.push(0);
            output_data.push(0);
            output_data.push(0);
        }
        proof {
            let next = input_data@.subrange(0, i + 1);
            assert(next.drop_last() =~= input_data@.subrange(0, i as int));
            assert(next.last() == v);
            assert(output_data@ =~= so_far + pixel(v));
            assert(output_data@ =~= old(output_data)@ + pixels(next));
        }
        i += 1;
    }
    assert(input_data@.subrange(0, i as int) =~= input_data@);
}

} // verus!
