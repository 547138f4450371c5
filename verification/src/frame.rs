//! Framebuffers: four bytes a pixel, red, green, blue, alpha.

use vstd::prelude::*;

verus! {

/// The number of whole pixels in a buffer of `len` bytes.
pub open spec fn pixel_count(len: nat) -> nat {
    len / 4
}

/// `after` is `before` with every whole pixel `i` replaced by the four
/// bytes `pixel(i)`; bytes past the last whole pixel are left as they were.
pub open spec fn painted(before: Seq<u8>, after: Seq<u8>, pixel: spec_fn(int) -> Seq<u8>) -> bool {
    painted_up_to(before, after, pixel, pixel_count(before.len()) as int)
}

/// `after` is `before` with the first `count` pixels replaced: byte `j` of
/// them is channel `j % 4` of pixel `j / 4`.
pub open spec fn painted_up_to(
    before: Seq<u8>,
    after: Seq<u8>,
    pixel: spec_fn(int) -> Seq<u8>,
    count: int,
) -> bool {
    &&& after.len() == before.len()
    &&& forall|j: int| 0 <= j < 4 * count ==> #[trigger] after[j] == pixel(j / 4)[j % 4]
    &&& forall|j: int| 4 * count <= j < before.len() ==> #[trigger] after[j] == before[j]
}

/// Writes one pixel.
pub fn put_pixel(frame: &mut [u8], i: usize, bytes: [u8; 4])
    requires
        4 * i + 4 <= old(frame)@.len(),
    ensures
        final(frame)@.len() == old(frame)@.len(),
        forall|c: int| 0 <= c < 4 ==> final(frame)@[4 * i + c] == bytes@[c],
        forall|j: int|
            0 <= j < old(frame)@.len() && !(4 * i <= j < 4 * i + 4) ==> final(frame)@[j] == old(
                frame,
            )@[j],
{
    let base: usize = 4 * i;
    frame[base] = bytes[0];
    frame[base + 1] = bytes[1];
    frame[base + 2] = bytes[2];
    frame[base + 3] = bytes[3];
}

} // verus!
