use vstd::prelude::*;

verus! {

/// The 8-bit display value of a colour channel that has been scaled to
/// `0 ..= 255` and rounded. An over-bright channel saturates at 255 instead
/// of wrapping round to dark.
pub fn channel_byte(scaled: u32) -> (r: u8)
    ensures
        r == if scaled > 255 {
            255
        } else {
            scaled
        },
{
    if scaled > 255 {
        255
    } else {
        scaled as u8
    }
}

} // verus!
