//! Bit-history states: a fixed automaton that summarises the zeros and
//! ones seen in one context as a single byte.

use vstd::prelude::*;

verus! {

/// The transition table, two successors per state: entry `2 * s` follows a
/// zero bit, entry `2 * s + 1` a one bit.
pub open spec fn state_table() -> Seq<u8> {
    seq![
        1u8, 2, 3, 5, 4, 6, 7, 10, 8, 12, 9, 13, 11, 14, 15, 19,
        16, 23, 17, 24, 18, 25, 20, 27, 21, 28, 22, 29, 26, 30, 31, 33,
        32, 35, 32, 35, 32, 35, 32, 35, 34, 37, 34, 37, 34, 37, 34, 37,
        34, 37, 34, 37, 36, 39, 36, 39, 36, 39, 36, 39, 38, 40, 41, 43,
        42, 45, 42, 45, 44, 47, 44, 47, 46, 49, 46, 49, 48, 51, 48, 51,
        50, 52, 53, 43, 54, 57, 54, 57, 56, 59, 56, 59, 58, 61, 58, 61,
        60, 63, 60, 63, 62, 65, 62, 65, 50, 66, 67, 55, 68, 57, 68, 57,
        70, 73, 70, 73, 72, 75, 72, 75, 74, 77, 74, 77, 76, 79, 76, 79,
        62, 81, 62, 81, 64, 82, 83, 69, 84, 71, 84, 71, 86, 73, 86, 73,
        44, 59, 44, 59, 58, 61, 58, 61, 60, 49, 60, 49, 76, 89, 76, 89,
        78, 91, 78, 91, 80, 92, 93, 69, 94, 87, 94, 87, 96, 45, 96, 45,
        48, 99, 48, 99, 88, 101, 88, 101, 80, 102, 103, 69, 104, 87, 104, 87,
        106, 57, 106, 57, 62, 109, 62, 109, 88, 111, 88, 111, 80, 112, 113, 85,
        114, 87, 114, 87, 116, 57, 116, 57, 62, 119, 62, 119, 88, 121, 88, 121,
        90, 122, 123, 85, 124, 97, 124, 97, 126, 57, 126, 57, 62, 129, 62, 129,
        98, 131, 98, 131, 90, 132, 133, 85, 134, 97, 134, 97, 136, 57, 136, 57,
        62, 139, 62, 139, 98, 141, 98, 141, 90, 142, 143, 95, 144, 97, 144, 97,
        68, 57, 68, 57, 62, 81, 62, 81, 98, 147, 98, 147, 100, 148, 149, 95,
        150, 107, 150, 107, 108, 151, 108, 151, 100, 152, 153, 95, 154, 107, 108, 155,
        100, 156, 157, 95, 158, 107, 108, 159, 100, 160, 161, 105, 162, 107, 108, 163,
        110, 164, 165, 105, 166, 117, 118, 167, 110, 168, 169, 105, 170, 117, 118, 171,
        110, 172, 173, 105, 174, 117, 118, 175, 110, 176, 177, 105, 178, 117, 118, 179,
        110, 180, 181, 115, 182, 117, 118, 183, 120, 184, 185, 115, 186, 127, 128, 187,
        120, 188, 189, 115, 190, 127, 128, 191, 120, 192, 193, 115, 194, 127, 128, 195,
        120, 196, 197, 115, 198, 127, 128, 199, 120, 200, 201, 115, 202, 127, 128, 203,
        120, 204, 205, 115, 206, 127, 128, 207, 120, 208, 209, 125, 210, 127, 128, 211,
        130, 212, 213, 125, 214, 137, 138, 215, 130, 216, 217, 125, 218, 137, 138, 219,
        130, 220, 221, 125, 222, 137, 138, 223, 130, 224, 225, 125, 226, 137, 138, 227,
        130, 228, 229, 125, 230, 137, 138, 231, 130, 232, 233, 125, 234, 137, 138, 235,
        130, 236, 237, 125, 238, 137, 138, 239, 130, 240, 241, 125, 242, 137, 138, 243,
        130, 244, 245, 135, 246, 137, 138, 247, 140, 248, 249, 135, 250, 69, 80, 251,
        140, 252, 249, 135, 250, 69, 80, 251, 140, 252, 0, 0, 0, 0, 0, 0,
    ]
}

/// The state that follows `state` once `bit` has been seen.
pub open spec fn next_state_spec(state: u8, bit: int) -> u8 {
    state_table()[2 * state + bit]
}

/// Advances a bit history by one observed bit.
pub fn next_state(state: u8, bit: i32) -> (next: u8)
    requires
        bit == 0 || bit == 1,
    ensures
        next == next_state_spec(state, bit as int),
{
    let t: [u8; 512] = [
        1, 2, 3, 5, 4, 6, 7, 10, 8, 12, 9, 13, 11, 14, 15, 19,
        16, 23, 17, 24, 18, 25, 20, 27, 21, 28, 22, 29, 26, 30, 31, 33,
        32, 35, 32, 35, 32, 35, 32, 35, 34, 37, 34, 37, 34, 37, 34, 37,
        34, 37, 34, 37, 36, 39, 36, 39, 36, 39, 36, 39, 38, 40, 41, 43,
        42, 45, 42, 45, 44, 47, 44, 47, 46, 49, 46, 49, 48, 51, 48, 51,
        50, 52, 53, 43, 54, 57, 54, 57, 56, 59, 56, 59, 58, 61, 58, 61,
        60, 63, 60, 63, 62, 65, 62, 65, 50, 66, 67, 55, 68, 57, 68, 57,
        70, 73, 70, 73, 72, 75, 72, 75, 74, 77, 74, 77, 76, 79, 76, 79,
        62, 81, 62, 81, 64, 82, 83, 69, 84, 71, 84, 71, 86, 73, 86, 73,
        44, 59, 44, 59, 58, 61, 58, 61, 60, 49, 60, 49, 76, 89, 76, 89,
        78, 91, 78, 91, 80, 92, 93, 69, 94, 87, 94, 87, 96, 45, 96, 45,
        48, 99, 48, 99, 88, 101, 88, 101, 80, 102, 103, 69, 104, 87, 104, 87,
        106, 57, 106, 57, 62, 109, 62, 109, 88, 111, 88, 111, 80, 112, 113, 85,
        114, 87, 114, 87, 116, 57, 116, 57, 62, 119, 62, 119, 88, 121, 88, 121,
        90, 122, 123, 85, 124, 97, 124, 97, 126, 57, 126, 57, 62, 129, 62, 129,
        98, 131, 98, 131, 90, 132, 133, 85, 134, 97, 134, 97, 136, 57, 136, 57,
        62, 139, 62, 139, 98, 141, 98, 141, 90, 142, 143, 95, 144, 97, 144, 97,
        68, 57, 68, 57, 62, 81, 62, 81, 98, 147, 98, 147, 100, 148, 149, 95,
        150, 107, 150, 107, 108, 151, 108, 151, 100, 152, 153, 95, 154, 107, 108, 155,
        100, 156, 157, 95, 158, 107, 108, 159, 100, 160, 161, 105, 162, 107, 108, 163,
        110, 164, 165, 105, 166, 117, 118, 167, 110, 168, 169, 105, 170, 117, 118, 171,
        110, 172, 173, 105, 174, 117, 118, 175, 110, 176, 177, 105, 178, 117, 118, 179,
        110, 180, 181, 115, 182, 117, 118, 183, 120, 184, 185, 115, 186, 127, 128, 187,
        120, 188, 189, 115, 190, 127, 128, 191, 120, 192, 193, 115, 194, 127, 128, 195,
        120, 196, 197, 115, 198, 127, 128, 199, 120, 200, 201, 115, 202, 127, 128, 203,
        120, 204, 205, 115, 206, 127, 128, 207, 120, 208, 209, 125, 210, 127, 128, 211,
        130, 212, 213, 125, 214, 137, 138, 215, 130, 216, 217, 125, 218, 137, 138, 219,
        130, 220, 221, 125, 222, 137, 138, 223, 130, 224, 225, 125, 226, 137, 138, 227,
        130, 228, 229, 125, 230, 137, 138, 231, 130, 232, 233, 125, 234, 137, 138, 235,
        130, 236, 237, 125, 238, 137, 138, 239, 130, 240, 241, 125, 242, 137, 138, 243,
        130, 244, 245, 135, 246, 137, 138, 247, 140, 248, 249, 135, 250, 69, 80, 251,
        140, 252, 249, 135, 250, 69, 80, 251, 140, 252, 0, 0, 0, 0, 0, 0,
    ];
    assert(t@ =~= state_table());
    t[2 * (state as usize) + (bit as usize)]
}

} // verus!
